//! The free regions that occur in a type, in the order in which a type visitor
//! meets them. Regions bound by a binder inside the type are skipped.
use vstd::prelude::*;

use crate::ty::{
    args_below_in, Const, GenericArg, PatternKind, RefinementDefinition, Region, Term, TyCtxt,
    TyId, TyKind,
};

verus! {

pub open spec fn region_seq(r: Region) -> Seq<Region> {
    if r is Bound {
        Seq::empty()
    } else {
        seq![r]
    }
}

impl TyCtxt {
    /// The free regions of `t`, in visiting order.
    pub open spec fn regions_ty(&self, t: TyId) -> Seq<Region>
        decreases t + 1, 0int, 0int, 0int,
    {
        if t >= self.types@.len() {
            Seq::empty()
        } else {
            match self.types@[t as int] {
                TyKind::Adt(_, a) | TyKind::FnDef(_, a, _) => self.regions_args(a, t as int, 0),
                TyKind::Alias(_, alias) => self.regions_args(alias.args, t as int, 0),
                TyKind::Array(ty, c) => if ty < t {
                    self.regions_ty(ty) + match c {
                        Const::Alias(b) => self.regions_args(b, t as int, 0),
                        _ => Seq::empty(),
                    }
                } else {
                    Seq::empty()
                },
                TyKind::Pat(ty, p) => if ty < t {
                    self.regions_ty(ty) + self.regions_pat(p, t as int)
                } else {
                    Seq::empty()
                },
                TyKind::Slice(ty) | TyKind::RawPtr(ty, _) | TyKind::UnsafeBinder(ty) => if ty < t {
                    self.regions_ty(ty)
                } else {
                    Seq::empty()
                },
                TyKind::Ref(r, ty, _) => if ty < t {
                    region_seq(r) + self.regions_ty(ty)
                } else {
                    Seq::empty()
                },
                TyKind::FnPtr(l) | TyKind::Tuple(l) => self.regions_list(l, t as int, 0),
                TyKind::Dynamic(d, r) => self.regions_dyn(d, t as int) + region_seq(r),
                TyKind::Closure(_, c) => if c.sig_as_fn_ptr < t && c.upvars < t {
                    self.regions_args(c.parent, t as int, 0) + self.regions_ty(c.sig_as_fn_ptr)
                        + self.regions_ty(c.upvars)
                } else {
                    Seq::empty()
                },
                TyKind::CoroutineClosure(_, c) => if c.signature_parts < t && c.upvars < t
                    && c.captures_by_ref < t {
                    self.regions_args(c.parent, t as int, 0) + self.regions_ty(c.signature_parts)
                        + self.regions_ty(c.upvars) + self.regions_ty(c.captures_by_ref)
                } else {
                    Seq::empty()
                },
                TyKind::Coroutine(_, c) => if c.resume < t && c.yield_ty < t && c.return_ty < t
                    && c.upvars < t {
                    self.regions_args(c.parent, t as int, 0) + self.regions_ty(c.resume)
                        + self.regions_ty(c.yield_ty) + self.regions_ty(c.return_ty)
                        + self.regions_ty(c.upvars)
                } else {
                    Seq::empty()
                },
                TyKind::Refined(ty, key) => if ty < t {
                    self.regions_ty(ty) + match key.0 {
                        RefinementDefinition::Pattern(p) => self.regions_pat(p, t as int),
                        RefinementDefinition::Constructor { .. } => Seq::empty(),
                    }
                } else {
                    Seq::empty()
                },
                _ => Seq::empty(),
            }
        }
    }

    /// The free regions of the arguments `k..` of list `a`, whose types are below `bound`.
    pub open spec fn regions_args(&self, a: usize, bound: int, k: int) -> Seq<Region>
        decreases bound, 1int, a, self.arg_lists@[a as int]@.len() - k,
    {
        if a >= self.arg_lists@.len() || k < 0 || k >= self.arg_lists@[a as int]@.len() {
            Seq::empty()
        } else {
            let head = match self.arg_lists@[a as int]@[k] {
                GenericArg::Lifetime(r) => region_seq(r),
                GenericArg::Type(ty) => if ty < bound {
                    self.regions_ty(ty)
                } else {
                    Seq::empty()
                },
                GenericArg::Const(Const::Alias(b)) => if b < a {
                    self.regions_args(b, bound, 0)
                } else {
                    Seq::empty()
                },
                GenericArg::Const(_) => Seq::empty(),
            };
            head + self.regions_args(a, bound, k + 1)
        }
    }

    /// The free regions of the types `k..` of list `l`, which are below `bound`.
    pub open spec fn regions_list(&self, l: usize, bound: int, k: int) -> Seq<Region>
        decreases bound, 1int, 0int, self.ty_lists@[l as int]@.len() - k,
    {
        if l >= self.ty_lists@.len() || k < 0 || k >= self.ty_lists@[l as int]@.len() {
            Seq::empty()
        } else {
            let ty = self.ty_lists@[l as int]@[k];
            (if ty < bound {
                self.regions_ty(ty)
            } else {
                Seq::empty()
            }) + self.regions_list(l, bound, k + 1)
        }
    }

    pub open spec fn regions_pat(&self, p: usize, bound: int) -> Seq<Region>
        decreases bound, 2int, p, self.pat_alternatives(p) + 1,
    {
        if p >= self.patterns@.len() {
            Seq::empty()
        } else {
            match self.patterns@[p as int] {
                PatternKind::Range { start, end } => (match start {
                    Const::Alias(b) => self.regions_args(b, bound, 0),
                    _ => Seq::empty(),
                }) + (match end {
                    Const::Alias(b) => self.regions_args(b, bound, 0),
                    _ => Seq::empty(),
                }),
                PatternKind::NotNull => Seq::empty(),
                PatternKind::Or(ps) => self.regions_pats(p, bound, 0),
            }
        }
    }

    pub open spec fn pat_alternatives(&self, p: usize) -> int {
        match self.patterns@[p as int] {
            PatternKind::Or(ps) => ps@.len() as int,
            _ => 0,
        }
    }

    /// The free regions of the alternatives `k..` of the or-pattern `p`.
    pub open spec fn regions_pats(&self, p: usize, bound: int, k: int) -> Seq<Region>
        decreases bound, 2int, p, self.pat_alternatives(p) - k,
    {
        if p >= self.patterns@.len() || k < 0 {
            Seq::empty()
        } else {
            match self.patterns@[p as int] {
                PatternKind::Or(ps) => if k >= ps@.len() {
                    Seq::empty()
                } else {
                    (if ps@[k] < p {
                        self.regions_pat(ps@[k], bound)
                    } else {
                        Seq::empty()
                    }) + self.regions_pats(p, bound, k + 1)
                },
                _ => Seq::empty(),
            }
        }
    }

    pub open spec fn regions_dyn(&self, d: usize, bound: int) -> Seq<Region>
        decreases bound, 4int, 0int, 0int,
    {
        if d >= self.dyns@.len() {
            Seq::empty()
        } else {
            (match self.dyns@[d as int].principal {
                Some(a) => self.regions_args(a, bound, 0),
                None => Seq::empty(),
            }) + self.regions_projections(d, bound, 0)
        }
    }

    pub open spec fn regions_projections(&self, d: usize, bound: int, k: int) -> Seq<Region>
        decreases bound, 3int, 0int, self.dyns@[d as int].projections@.len() - k,
    {
        if d >= self.dyns@.len() || k < 0 || k >= self.dyns@[d as int].projections@.len() {
            Seq::empty()
        } else {
            let p = self.dyns@[d as int].projections@[k];
            self.regions_args(p.args, bound, 0) + (match p.term {
                Term::Ty(ty) => if ty < bound {
                    self.regions_ty(ty)
                } else {
                    Seq::empty()
                },
                Term::Const(Const::Alias(b)) => self.regions_args(b, bound, 0),
                Term::Const(_) => Seq::empty(),
            }) + self.regions_projections(d, bound, k + 1)
        }
    }

    /// Appends the free regions of `t` to `out`, in visiting order.
    pub fn visit_regions_ty(&self, t: TyId, out: &mut Vec<Region>)
        requires
            self.wf(),
            self.valid_ty(t),
        ensures
            final(out)@ == old(out)@ + self.regions_ty(t),
        decreases t + 1, 0int, 0int, 0int,
    {
        proof {
            assert(self.kind_below(self.types@[t as int], t as int));
        }
        match self.types[t] {
            TyKind::Adt(_, a) | TyKind::FnDef(_, a, _) => self.visit_regions_args(a, t, out),
            TyKind::Alias(_, alias) => self.visit_regions_args(alias.args, t, out),
            TyKind::Array(ty, c) => {
                self.visit_regions_ty(ty, out);
                if let Const::Alias(b) = c {
                    self.visit_regions_args(b, t, out);
                }
                proof { assert(out@ =~= old(out)@ + self.regions_ty(t)); }
            },
            TyKind::Pat(ty, p) => {
                self.visit_regions_ty(ty, out);
                self.visit_regions_pat(p, t, out);
                proof { assert(out@ =~= old(out)@ + self.regions_ty(t)); }
            },
            TyKind::Slice(ty) | TyKind::RawPtr(ty, _) | TyKind::UnsafeBinder(ty) => self.visit_regions_ty(ty, out),
            TyKind::Ref(r, ty, _) => {
                if !matches!(r, Region::Bound(_)) {
                    out.push(r);
                }
                self.visit_regions_ty(ty, out);
                proof { assert(out@ =~= old(out)@ + self.regions_ty(t)); }
            },
            TyKind::FnPtr(l) | TyKind::Tuple(l) => self.visit_regions_list(l, t, out),
            TyKind::Dynamic(d, r) => {
                self.visit_regions_dyn(d, t, out);
                if !matches!(r, Region::Bound(_)) {
                    out.push(r);
                }
                proof { assert(out@ =~= old(out)@ + self.regions_ty(t)); }
            },
            TyKind::Closure(_, c) => {
                self.visit_regions_args(c.parent, t, out);
                self.visit_regions_ty(c.sig_as_fn_ptr, out);
                self.visit_regions_ty(c.upvars, out);
                proof { assert(out@ =~= old(out)@ + self.regions_ty(t)); }
            },
            TyKind::CoroutineClosure(_, c) => {
                self.visit_regions_args(c.parent, t, out);
                self.visit_regions_ty(c.signature_parts, out);
                self.visit_regions_ty(c.upvars, out);
                self.visit_regions_ty(c.captures_by_ref, out);
                proof { assert(out@ =~= old(out)@ + self.regions_ty(t)); }
            },
            TyKind::Coroutine(_, c) => {
                self.visit_regions_args(c.parent, t, out);
                self.visit_regions_ty(c.resume, out);
                self.visit_regions_ty(c.yield_ty, out);
                self.visit_regions_ty(c.return_ty, out);
                self.visit_regions_ty(c.upvars, out);
                proof { assert(out@ =~= old(out)@ + self.regions_ty(t)); }
            },
            TyKind::Refined(ty, key) => {
                self.visit_regions_ty(ty, out);
                if let RefinementDefinition::Pattern(p) = key.0 {
                    self.visit_regions_pat(p, t, out);
                }
                proof { assert(out@ =~= old(out)@ + self.regions_ty(t)); }
            },
            _ => {
                proof { assert(out@ =~= old(out)@ + self.regions_ty(t)); }
            },
        }
    }

    pub fn visit_regions_args(&self, a: usize, bound: usize, out: &mut Vec<Region>)
        requires
            self.wf(),
            bound <= self.types@.len(),
            self.args_below(a, bound as int),
        ensures
            final(out)@ == old(out)@ + self.regions_args(a, bound as int, 0),
        decreases bound, 1int, a, 0int,
    {
        let n = self.arg_lists[a].len();
        let mut k: usize = 0;
        while k < n
            invariant
                self.wf(),
                bound <= self.types@.len(),
                self.args_below(a, bound as int),
                n == self.arg_lists@[a as int]@.len(),
                k <= n,
                old(out)@ + self.regions_args(a, bound as int, 0) == out@ + self.regions_args(
                    a,
                    bound as int,
                    k as int,
                ),
            decreases n - k,
        {
            let ghost before = out@;
            let arg = self.arg_lists[a][k];
            proof {
                assert(args_below_in(self.arg_lists@, a, bound as int));
                assert(match self.arg_lists@[a as int]@[k as int] {
                    GenericArg::Type(t) => t < bound,
                    GenericArg::Const(Const::Alias(b)) => b < a && args_below_in(self.arg_lists@, b, bound as int),
                    _ => true,
                });
            }
            match arg {
                GenericArg::Lifetime(r) => {
                    if !matches!(r, Region::Bound(_)) {
                        out.push(r);
                    }
                },
                GenericArg::Type(ty) => self.visit_regions_ty(ty, out),
                GenericArg::Const(Const::Alias(b)) => self.visit_regions_args(b, bound, out),
                GenericArg::Const(_) => {},
            }
            proof {
                assert(self.regions_args(a, bound as int, k as int) == (out@.subrange(before.len() as int, out@.len() as int)) + self.regions_args(a, bound as int, k + 1));
                assert(before + self.regions_args(a, bound as int, k as int) =~= out@ + self.regions_args(a, bound as int, k + 1));
            }
            k = k + 1;
        }
        proof { assert(out@ + self.regions_args(a, bound as int, k as int) =~= out@); }
    }

    pub fn visit_regions_list(&self, l: usize, bound: usize, out: &mut Vec<Region>)
        requires
            self.wf(),
            bound <= self.types@.len(),
            self.list_below(l, bound as int),
        ensures
            final(out)@ == old(out)@ + self.regions_list(l, bound as int, 0),
        decreases bound, 1int, 0int, 0int,
    {
        let n = self.ty_lists[l].len();
        let mut k: usize = 0;
        while k < n
            invariant
                self.wf(),
                bound <= self.types@.len(),
                self.list_below(l, bound as int),
                n == self.ty_lists@[l as int]@.len(),
                k <= n,
                old(out)@ + self.regions_list(l, bound as int, 0) == out@ + self.regions_list(
                    l,
                    bound as int,
                    k as int,
                ),
            decreases n - k,
        {
            let ghost before = out@;
            let ty = self.ty_lists[l][k];
            proof { assert(ty < bound); }
            self.visit_regions_ty(ty, out);
            proof {
                assert(before + self.regions_list(l, bound as int, k as int) =~= out@ + self.regions_list(l, bound as int, k + 1));
            }
            k = k + 1;
        }
        proof { assert(out@ + self.regions_list(l, bound as int, k as int) =~= out@); }
    }

    pub fn visit_regions_pat(&self, p: usize, bound: usize, out: &mut Vec<Region>)
        requires
            self.wf(),
            bound <= self.types@.len(),
            self.pattern_wf(p, bound as int),
        ensures
            final(out)@ == old(out)@ + self.regions_pat(p, bound as int),
        decreases bound, 2int, p, self.pat_alternatives(p) + 1,
    {
        match &self.patterns[p] {
            PatternKind::Range { start, end } => {
                if let Const::Alias(b) = *start {
                    self.visit_regions_args(b, bound, out);
                }
                let ghost mid = out@;
                if let Const::Alias(b) = *end {
                    self.visit_regions_args(b, bound, out);
                }
                proof { assert(out@ =~= old(out)@ + self.regions_pat(p, bound as int)); }
            },
            PatternKind::NotNull => {
                proof { assert(out@ =~= old(out)@ + self.regions_pat(p, bound as int)); }
            },
            PatternKind::Or(ps) => {
                let n = ps.len();
                let mut k: usize = 0;
                while k < n
                    invariant
                        self.wf(),
                        bound <= self.types@.len(),
                        self.pattern_wf(p, bound as int),
                        self.patterns@[p as int] == PatternKind::Or(*ps),
                        n == ps@.len(),
                        k <= n,
                        old(out)@ + self.regions_pats(p, bound as int, 0) == out@ + self.regions_pats(
                            p,
                            bound as int,
                            k as int,
                        ),
                    decreases n - k,
                {
                    let ghost before = out@;
                    let q = ps[k];
                    proof { assert(q < p); }
                    self.visit_regions_pat(q, bound, out);
                    proof {
                        assert(before + self.regions_pats(p, bound as int, k as int) =~= out@ + self.regions_pats(p, bound as int, k + 1));
                    }
                    k = k + 1;
                }
                proof {
                    assert(out@ + self.regions_pats(p, bound as int, k as int) =~= out@);
                    assert(out@ =~= old(out)@ + self.regions_pat(p, bound as int));
                }
            },
        }
    }

    pub fn visit_regions_dyn(&self, d: usize, bound: usize, out: &mut Vec<Region>)
        requires
            self.wf(),
            bound <= self.types@.len(),
            self.dyn_below(d, bound as int),
        ensures
            final(out)@ == old(out)@ + self.regions_dyn(d, bound as int),
        decreases bound, 4int, 0int, 0int,
    {
        if let Some(a) = self.dyns[d].principal {
            self.visit_regions_args(a, bound, out);
        }
        let ghost mid = out@;
        let n = self.dyns[d].projections.len();
        let mut k: usize = 0;
        while k < n
            invariant
                self.wf(),
                bound <= self.types@.len(),
                self.dyn_below(d, bound as int),
                n == self.dyns@[d as int].projections@.len(),
                k <= n,
                mid + self.regions_projections(d, bound as int, 0) == out@ + self.regions_projections(
                    d,
                    bound as int,
                    k as int,
                ),
            decreases n - k,
        {
            let ghost before = out@;
            let proj = self.dyns[d].projections[k];
            proof {
                let pp = self.dyns@[d as int].projections@[k as int];
                assert(self.args_below(pp.args, bound as int));
            }
            self.visit_regions_args(proj.args, bound, out);
            match proj.term {
                Term::Ty(ty) => self.visit_regions_ty(ty, out),
                Term::Const(Const::Alias(b)) => self.visit_regions_args(b, bound, out),
                Term::Const(_) => {},
            }
            proof {
                assert(before + self.regions_projections(d, bound as int, k as int) =~= out@ + self.regions_projections(d, bound as int, k + 1));
            }
            k = k + 1;
        }
        proof {
            assert(out@ + self.regions_projections(d, bound as int, k as int) =~= out@);
            assert(out@ =~= old(out)@ + self.regions_dyn(d, bound as int));
        }
    }
}

/// No region of `s` is a bound one.
pub open spec fn all_free(s: Seq<Region>) -> bool {
    forall|i: int| 0 <= i < s.len() ==> !(#[trigger] s[i] is Bound)
}

pub proof fn lemma_all_free_concat(a: Seq<Region>, b: Seq<Region>)
    requires
        all_free(a),
        all_free(b),
    ensures
        all_free(a + b),
{
    assert forall|i: int| 0 <= i < (a + b).len() implies !(#[trigger] (a + b)[i] is Bound) by {
        if i < a.len() {
            assert((a + b)[i] == a[i]);
        } else {
            assert((a + b)[i] == b[i - a.len()]);
        }
    }
}

impl TyCtxt {
    /// The regions that a type visitor meets in `t` are all free: a bound
    /// region is never among them.
    pub proof fn lemma_regions_ty_free(&self, t: TyId)
        ensures
            all_free(self.regions_ty(t)),
        decreases t + 1, 0int, 0int, 0int,
    {
        if t < self.types@.len() {
            match self.types@[t as int] {
                TyKind::Adt(_, a) | TyKind::FnDef(_, a, _) => self.lemma_regions_args_free(a, t as int, 0),
                TyKind::Alias(_, alias) => self.lemma_regions_args_free(alias.args, t as int, 0),
                TyKind::Array(ty, c) => if ty < t {
                    self.lemma_regions_ty_free(ty);
                    if let Const::Alias(b) = c {
                        self.lemma_regions_args_free(b, t as int, 0);
                        lemma_all_free_concat(self.regions_ty(ty), self.regions_args(b, t as int, 0));
                    } else {
                        lemma_all_free_concat(self.regions_ty(ty), Seq::empty());
                    }
                },
                TyKind::Pat(ty, p) => if ty < t {
                    self.lemma_regions_ty_free(ty);
                    self.lemma_regions_pat_free(p, t as int);
                    lemma_all_free_concat(self.regions_ty(ty), self.regions_pat(p, t as int));
                },
                TyKind::Slice(ty) | TyKind::RawPtr(ty, _) | TyKind::UnsafeBinder(ty) => if ty < t {
                    self.lemma_regions_ty_free(ty);
                },
                TyKind::Ref(r, ty, _) => if ty < t {
                    self.lemma_regions_ty_free(ty);
                    lemma_all_free_concat(region_seq(r), self.regions_ty(ty));
                },
                TyKind::FnPtr(l) | TyKind::Tuple(l) => self.lemma_regions_list_free(l, t as int, 0),
                TyKind::Dynamic(d, r) => {
                    self.lemma_regions_dyn_free(d, t as int);
                    lemma_all_free_concat(self.regions_dyn(d, t as int), region_seq(r));
                },
                TyKind::Closure(_, c) => if c.sig_as_fn_ptr < t && c.upvars < t {
                    self.lemma_regions_args_free(c.parent, t as int, 0);
                    self.lemma_regions_ty_free(c.sig_as_fn_ptr);
                    self.lemma_regions_ty_free(c.upvars);
                    lemma_all_free_concat(self.regions_args(c.parent, t as int, 0), self.regions_ty(c.sig_as_fn_ptr));
                    lemma_all_free_concat(
                        self.regions_args(c.parent, t as int, 0) + self.regions_ty(c.sig_as_fn_ptr),
                        self.regions_ty(c.upvars),
                    );
                },
                TyKind::CoroutineClosure(_, c) => if c.signature_parts < t && c.upvars < t && c.captures_by_ref < t {
                    self.lemma_regions_args_free(c.parent, t as int, 0);
                    self.lemma_regions_ty_free(c.signature_parts);
                    self.lemma_regions_ty_free(c.upvars);
                    self.lemma_regions_ty_free(c.captures_by_ref);
                    let a = self.regions_args(c.parent, t as int, 0);
                    lemma_all_free_concat(a, self.regions_ty(c.signature_parts));
                    lemma_all_free_concat(a + self.regions_ty(c.signature_parts), self.regions_ty(c.upvars));
                    lemma_all_free_concat(
                        a + self.regions_ty(c.signature_parts) + self.regions_ty(c.upvars),
                        self.regions_ty(c.captures_by_ref),
                    );
                },
                TyKind::Coroutine(_, c) => if c.resume < t && c.yield_ty < t && c.return_ty < t && c.upvars < t {
                    self.lemma_regions_args_free(c.parent, t as int, 0);
                    self.lemma_regions_ty_free(c.resume);
                    self.lemma_regions_ty_free(c.yield_ty);
                    self.lemma_regions_ty_free(c.return_ty);
                    self.lemma_regions_ty_free(c.upvars);
                    let a = self.regions_args(c.parent, t as int, 0);
                    lemma_all_free_concat(a, self.regions_ty(c.resume));
                    let b = a + self.regions_ty(c.resume);
                    lemma_all_free_concat(b, self.regions_ty(c.yield_ty));
                    let d = b + self.regions_ty(c.yield_ty);
                    lemma_all_free_concat(d, self.regions_ty(c.return_ty));
                    lemma_all_free_concat(d + self.regions_ty(c.return_ty), self.regions_ty(c.upvars));
                },
                TyKind::Refined(ty, key) => if ty < t {
                    self.lemma_regions_ty_free(ty);
                    match key.0 {
                        RefinementDefinition::Pattern(p) => {
                            self.lemma_regions_pat_free(p, t as int);
                            lemma_all_free_concat(self.regions_ty(ty), self.regions_pat(p, t as int));
                        },
                        RefinementDefinition::Constructor { .. } => {
                            lemma_all_free_concat(self.regions_ty(ty), Seq::empty());
                        },
                    }
                },
                _ => {},
            }
        }
    }

    pub proof fn lemma_regions_args_free(&self, a: usize, bound: int, k: int)
        ensures
            all_free(self.regions_args(a, bound, k)),
        decreases bound, 1int, a, self.arg_lists@[a as int]@.len() - k,
    {
        if a < self.arg_lists@.len() && 0 <= k < self.arg_lists@[a as int]@.len() {
            let head = match self.arg_lists@[a as int]@[k] {
                GenericArg::Lifetime(r) => region_seq(r),
                GenericArg::Type(ty) => if ty < bound {
                    self.regions_ty(ty)
                } else {
                    Seq::empty()
                },
                GenericArg::Const(Const::Alias(b)) => if b < a {
                    self.regions_args(b, bound, 0)
                } else {
                    Seq::empty()
                },
                GenericArg::Const(_) => Seq::empty(),
            };
            match self.arg_lists@[a as int]@[k] {
                GenericArg::Type(ty) => if ty < bound {
                    self.lemma_regions_ty_free(ty);
                },
                GenericArg::Const(Const::Alias(b)) => if b < a {
                    self.lemma_regions_args_free(b, bound, 0);
                },
                _ => {},
            }
            self.lemma_regions_args_free(a, bound, k + 1);
            lemma_all_free_concat(head, self.regions_args(a, bound, k + 1));
        }
    }

    pub proof fn lemma_regions_list_free(&self, l: usize, bound: int, k: int)
        ensures
            all_free(self.regions_list(l, bound, k)),
        decreases bound, 1int, 0int, self.ty_lists@[l as int]@.len() - k,
    {
        if l < self.ty_lists@.len() && 0 <= k < self.ty_lists@[l as int]@.len() {
            let ty = self.ty_lists@[l as int]@[k];
            if ty < bound {
                self.lemma_regions_ty_free(ty);
            }
            self.lemma_regions_list_free(l, bound, k + 1);
            lemma_all_free_concat(
                if ty < bound {
                    self.regions_ty(ty)
                } else {
                    Seq::empty()
                },
                self.regions_list(l, bound, k + 1),
            );
        }
    }

    pub proof fn lemma_regions_pat_free(&self, p: usize, bound: int)
        ensures
            all_free(self.regions_pat(p, bound)),
        decreases bound, 2int, p, self.pat_alternatives(p) + 1,
    {
        if p < self.patterns@.len() {
            match self.patterns@[p as int] {
                PatternKind::Range { start, end } => {
                    let a = match start {
                        Const::Alias(b) => self.regions_args(b, bound, 0),
                        _ => Seq::empty(),
                    };
                    let b2 = match end {
                        Const::Alias(b) => self.regions_args(b, bound, 0),
                        _ => Seq::empty(),
                    };
                    if let Const::Alias(b) = start {
                        self.lemma_regions_args_free(b, bound, 0);
                    }
                    if let Const::Alias(b) = end {
                        self.lemma_regions_args_free(b, bound, 0);
                    }
                    lemma_all_free_concat(a, b2);
                },
                PatternKind::NotNull => {},
                PatternKind::Or(_) => self.lemma_regions_pats_free(p, bound, 0),
            }
        }
    }

    pub proof fn lemma_regions_pats_free(&self, p: usize, bound: int, k: int)
        ensures
            all_free(self.regions_pats(p, bound, k)),
        decreases bound, 2int, p, self.pat_alternatives(p) - k,
    {
        if p < self.patterns@.len() && k >= 0 {
            if let PatternKind::Or(ps) = self.patterns@[p as int] {
                if k < ps@.len() {
                    if ps@[k] < p {
                        self.lemma_regions_pat_free(ps@[k], bound);
                    }
                    self.lemma_regions_pats_free(p, bound, k + 1);
                    lemma_all_free_concat(
                        if ps@[k] < p {
                            self.regions_pat(ps@[k], bound)
                        } else {
                            Seq::empty()
                        },
                        self.regions_pats(p, bound, k + 1),
                    );
                }
            }
        }
    }

    pub proof fn lemma_regions_dyn_free(&self, d: usize, bound: int)
        ensures
            all_free(self.regions_dyn(d, bound)),
        decreases bound, 4int, 0int, 0int,
    {
        if d < self.dyns@.len() {
            let a = match self.dyns@[d as int].principal {
                Some(a) => self.regions_args(a, bound, 0),
                None => Seq::empty(),
            };
            if let Some(x) = self.dyns@[d as int].principal {
                self.lemma_regions_args_free(x, bound, 0);
            }
            self.lemma_regions_projections_free(d, bound, 0);
            lemma_all_free_concat(a, self.regions_projections(d, bound, 0));
        }
    }

    pub proof fn lemma_regions_projections_free(&self, d: usize, bound: int, k: int)
        ensures
            all_free(self.regions_projections(d, bound, k)),
        decreases bound, 3int, 0int, self.dyns@[d as int].projections@.len() - k,
    {
        if d < self.dyns@.len() && 0 <= k < self.dyns@[d as int].projections@.len() {
            let p = self.dyns@[d as int].projections@[k];
            self.lemma_regions_args_free(p.args, bound, 0);
            let t = match p.term {
                Term::Ty(ty) => if ty < bound {
                    self.regions_ty(ty)
                } else {
                    Seq::empty()
                },
                Term::Const(Const::Alias(b)) => self.regions_args(b, bound, 0),
                Term::Const(_) => Seq::empty(),
            };
            match p.term {
                Term::Ty(ty) => if ty < bound {
                    self.lemma_regions_ty_free(ty);
                },
                Term::Const(Const::Alias(b)) => self.lemma_regions_args_free(b, bound, 0),
                Term::Const(_) => {},
            }
            self.lemma_regions_projections_free(d, bound, k + 1);
            lemma_all_free_concat(self.regions_args(p.args, bound, 0), t);
            lemma_all_free_concat(self.regions_args(p.args, bound, 0) + t, self.regions_projections(d, bound, k + 1));
        }
    }
}

} // verus!
