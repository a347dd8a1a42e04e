//! What the planned conversions do to field values. A record's field
//! values are a vector, position by position; narrowing rebuilds a source
//! value from a subset value plus one extra argument per excluded field,
//! and widening projects a source value onto a subset.
use vstd::prelude::*;

use crate::schema::{ConvPlan, DroppedField, KeptField};
use crate::schema::FieldV;
use crate::substruct::{sp_dropped_has, sp_kept_has, sp_kept_flags, sp_plan_ok};

verus! {

/// A well-formed conversion plan over `kept + dropped` source positions:
/// subset positions dense in declaration order, source positions in range
/// and strictly increasing on both sides, and every source position on
/// exactly one side.
pub open spec fn plan_wf(plan: ConvPlan) -> bool {
    let n = plan.kept@.len() + plan.dropped@.len();
    &&& forall|x: int|
        0 <= x < plan.kept@.len() ==> (#[trigger] plan.kept@[x]).src_index == x && 0
            <= plan.kept@[x].dst_index < n
    &&& forall|x: int, y: int|
        0 <= x < y < plan.kept@.len() ==> (#[trigger] plan.kept@[x]).dst_index < (
        #[trigger] plan.kept@[y]).dst_index
    &&& forall|j: int|
        0 <= j < plan.dropped@.len() ==> 0 <= (#[trigger] plan.dropped@[j]).index < n
    &&& forall|x: int, y: int|
        0 <= x < y < plan.dropped@.len() ==> (#[trigger] plan.dropped@[x]).index < (
        #[trigger] plan.dropped@[y]).index
    &&& forall|m: int|
        0 <= m < n ==> sp_kept_has(plan.kept@, m) || sp_dropped_has(plan.dropped@, m)
    &&& forall|m: int|
        0 <= m < n ==> !(sp_kept_has(plan.kept@, m) && sp_dropped_has(plan.dropped@, m))
}

/// A plan the engine emitted for a derived record is well formed, over
/// as many source positions as the record has fields.
pub proof fn lemma_plan_ok_wf(
    plan: ConvPlan,
    fs: Seq<FieldV>,
    named: bool,
    src: Seq<char>,
    src_span: u32,
    generics: u32,
    subset: Seq<char>,
)
    requires
        sp_plan_ok(plan, fs, named, src, src_span, generics, subset),
    ensures
        plan_wf(plan),
        plan.kept@.len() + plan.dropped@.len() == fs.len(),
{
    let flags = sp_kept_flags(fs, src, src_span, subset);
    let n = plan.kept@.len() + plan.dropped@.len();
    assert forall|m: int| 0 <= m < n implies sp_kept_has(plan.kept@, m) || sp_dropped_has(
        plan.dropped@,
        m,
    ) by {
        if flags[m] {
        } else {
        }
    }
    assert forall|m: int| 0 <= m < n implies !(sp_kept_has(plan.kept@, m) && sp_dropped_has(
        plan.dropped@,
        m,
    )) by {
        if sp_kept_has(plan.kept@, m) && sp_dropped_has(plan.dropped@, m) {
            let x = choose|x: int|
                0 <= x < plan.kept@.len() && (#[trigger] plan.kept@[x]).dst_index == m;
            let j = choose|j: int|
                0 <= j < plan.dropped@.len() && (#[trigger] plan.dropped@[j]).index == m;
            assert(flags[m] && !flags[m]);
        }
    }
}

/// The subset position of the surviving source position `m`.
pub open spec fn sp_kept_pos(kept: Seq<KeptField>, m: int) -> int {
    choose|x: int| 0 <= x < kept.len() && (#[trigger] kept[x]).dst_index == m
}

/// The extra-argument position of the excluded source position `m`.
pub open spec fn sp_dropped_pos(dropped: Seq<DroppedField>, m: int) -> int {
    choose|j: int| 0 <= j < dropped.len() && (#[trigger] dropped[j]).index == m
}

/// What widening yields: the subset's values are the source's values at
/// the surviving positions, in subset order.
pub open spec fn sp_widen<V>(plan: ConvPlan, source: Seq<V>) -> Seq<V> {
    Seq::new(plan.kept@.len(), |x: int| source[plan.kept@[x].dst_index as int])
}

/// What narrowing yields: each surviving source position takes its value
/// from the subset, each excluded one from the extra arguments.
pub open spec fn sp_narrow<V>(plan: ConvPlan, subset: Seq<V>, extras: Seq<V>) -> Seq<V> {
    Seq::new(
        plan.kept@.len() + plan.dropped@.len(),
        |m: int|
            if sp_kept_has(plan.kept@, m) {
                subset[sp_kept_pos(plan.kept@, m)]
            } else {
                extras[sp_dropped_pos(plan.dropped@, m)]
            },
    )
}

/// In a well-formed plan, a surviving source position stands at one
/// subset position only.
pub proof fn lemma_kept_pos_unique(plan: ConvPlan, x: int)
    requires
        plan_wf(plan),
        0 <= x < plan.kept@.len(),
    ensures
        sp_kept_pos(plan.kept@, plan.kept@[x].dst_index as int) == x,
{
    let m = plan.kept@[x].dst_index as int;
    assert(sp_kept_has(plan.kept@, m));
    let y = sp_kept_pos(plan.kept@, m);
    if y < x {
        assert(plan.kept@[y].dst_index < plan.kept@[x].dst_index);
    }
    if x < y {
        assert(plan.kept@[x].dst_index < plan.kept@[y].dst_index);
    }
}

/// In a well-formed plan, an excluded source position stands at one
/// extra-argument position only.
pub proof fn lemma_dropped_pos_unique(plan: ConvPlan, j: int)
    requires
        plan_wf(plan),
        0 <= j < plan.dropped@.len(),
    ensures
        sp_dropped_pos(plan.dropped@, plan.dropped@[j].index as int) == j,
{
    let m = plan.dropped@[j].index as int;
    assert(sp_dropped_has(plan.dropped@, m));
    let y = sp_dropped_pos(plan.dropped@, m);
    if y < j {
        assert(plan.dropped@[y].index < plan.dropped@[j].index);
    }
    if j < y {
        assert(plan.dropped@[j].index < plan.dropped@[y].index);
    }
}

/// Widening: project a source value onto the subset, copying only the
/// surviving fields in subset order. Total and error-free.
pub fn widen<V: Copy>(plan: &ConvPlan, source: &Vec<V>) -> (r: Vec<V>)
    requires
        plan_wf(*plan),
        source@.len() == plan.kept@.len() + plan.dropped@.len(),
    ensures
        r@ == sp_widen(*plan, source@),
{
    let mut out: Vec<V> = Vec::new();
    let n = plan.kept.len();
    for x in 0..n
        invariant
            n == plan.kept@.len(),
            plan_wf(*plan),
            source@.len() == plan.kept@.len() + plan.dropped@.len(),
            out@.len() == x,
            forall|y: int| 0 <= y < x ==> out@[y] == source@[plan.kept@[y].dst_index as int],
    {
        out.push(source[plan.kept[x].dst_index]);
    }
    proof {
        assert(out@ =~= sp_widen(*plan, source@));
    }
    out
}

/// Narrowing: rebuild a source value from a subset value plus one extra
/// argument per excluded field, surviving fields remapped from the subset
/// and absent ones taken from the extra arguments.
pub fn narrow<V: Copy>(plan: &ConvPlan, subset: &Vec<V>, extras: &Vec<V>) -> (r: Vec<V>)
    requires
        plan_wf(*plan),
        subset@.len() == plan.kept@.len(),
        extras@.len() == plan.dropped@.len(),
        plan.kept@.len() + plan.dropped@.len() <= usize::MAX,
    ensures
        r@ == sp_narrow(*plan, subset@, extras@),
{
    let mut out: Vec<V> = Vec::new();
    let n = plan.kept.len() + plan.dropped.len();
    let mut ki: usize = 0;
    let mut di: usize = 0;
    let mut i: usize = 0;
    while i < n
        invariant
            n == plan.kept@.len() + plan.dropped@.len(),
            plan_wf(*plan),
            subset@.len() == plan.kept@.len(),
            extras@.len() == plan.dropped@.len(),
            i <= n,
            ki <= plan.kept@.len(),
            di <= plan.dropped@.len(),
            ki + di == i,
            out@.len() == i,
            forall|y: int| 0 <= y < i ==> out@[y] == sp_narrow(*plan, subset@, extras@)[y],
            forall|x: int| ki <= x < plan.kept@.len() ==> (#[trigger] plan.kept@[x]).dst_index >= i,
            forall|j: int|
                di <= j < plan.dropped@.len() ==> (#[trigger] plan.dropped@[j]).index >= i,
            forall|x: int| 0 <= x < ki ==> (#[trigger] plan.kept@[x]).dst_index < i,
            forall|j: int| 0 <= j < di ==> (#[trigger] plan.dropped@[j]).index < i,
        decreases n - i,
    {
        let take_kept = ki < plan.kept.len() && plan.kept[ki].dst_index == i;
        if take_kept {
            proof {
                assert(sp_kept_has(plan.kept@, i as int));
                lemma_kept_pos_unique(*plan, ki as int);
                assert(!(sp_kept_has(plan.kept@, i as int) && sp_dropped_has(
                    plan.dropped@,
                    i as int,
                )));
                assert(sp_narrow(*plan, subset@, extras@)[i as int] == subset@[ki as int]);
            }
            out.push(subset[ki]);
            ki = ki + 1;
        } else {
            proof {
                if sp_kept_has(plan.kept@, i as int) {
                    let x = choose|x: int|
                        0 <= x < plan.kept@.len() && (#[trigger] plan.kept@[x]).dst_index == i;
                    if x < ki {
                        assert(plan.kept@[x].dst_index < i);
                    } else if x > ki {
                        assert(plan.kept@[ki as int].dst_index < plan.kept@[x].dst_index);
                        assert(plan.kept@[ki as int].dst_index >= i);
                    } else {
                        assert(plan.kept@[ki as int].dst_index == i);
                    }
                    assert(false);
                }
                assert(sp_dropped_has(plan.dropped@, i as int));
                let j = choose|j: int|
                    0 <= j < plan.dropped@.len() && (#[trigger] plan.dropped@[j]).index == i;
                if j < di {
                    assert(plan.dropped@[j].index < i);
                    assert(false);
                }
                if j > di {
                    assert(plan.dropped@[di as int].index < plan.dropped@[j].index);
                    assert(plan.dropped@[di as int].index >= i);
                    assert(false);
                }
                assert(j == di);
                lemma_dropped_pos_unique(*plan, di as int);
                assert(sp_narrow(*plan, subset@, extras@)[i as int] == extras@[di as int]);
            }
            out.push(extras[di]);
            di = di + 1;
        }
        i = i + 1;
    }
    proof {
        assert(out@ =~= sp_narrow(*plan, subset@, extras@));
    }
    out
}

/// With nothing excluded the surviving positions are the identity: the
/// subset has the source's shape exactly.
pub proof fn lemma_full_reverse_identity(plan: ConvPlan)
    requires
        plan_wf(plan),
        plan.dropped@.len() == 0,
    ensures
        forall|x: int| 0 <= x < plan.kept@.len() ==> (#[trigger] plan.kept@[x]).dst_index == x,
{
    let n = plan.kept@.len() as int;
    assert forall|x: int| 0 <= x < n implies (#[trigger] plan.kept@[x]).dst_index == x by {
        lemma_kept_monotone(plan, x);
        if x < n - 1 {
            lemma_kept_monotone_high(plan, x);
        }
        assert(plan.kept@[x].dst_index < n);
    }
}

/// Source positions grow at least as fast as subset positions.
proof fn lemma_kept_monotone(plan: ConvPlan, x: int)
    requires
        plan_wf(plan),
        0 <= x < plan.kept@.len(),
    ensures
        plan.kept@[x].dst_index >= x,
    decreases x,
{
    if x > 0 {
        lemma_kept_monotone(plan, x - 1);
        assert(plan.kept@[x - 1].dst_index < plan.kept@[x].dst_index);
    }
}

/// Source positions leave room for the entries above them.
proof fn lemma_kept_monotone_high(plan: ConvPlan, x: int)
    requires
        plan_wf(plan),
        plan.dropped@.len() == 0,
        0 <= x < plan.kept@.len(),
    ensures
        plan.kept@[x].dst_index + (plan.kept@.len() - 1 - x) < plan.kept@.len(),
    decreases plan.kept@.len() - x,
{
    let n = plan.kept@.len() as int;
    if x == n - 1 {
        assert(plan.kept@[x].dst_index < n);
    } else {
        lemma_kept_monotone_high(plan, x + 1);
        assert(plan.kept@[x].dst_index < plan.kept@[x + 1].dst_index);
    }
}

/// Lossless law, stated on values: with nothing excluded, widening leaves
/// a source value unchanged, so source and subset values coincide and
/// `widen(narrow(widen(source)))` gives the source back exactly.
pub proof fn lemma_widen_identity<V>(plan: ConvPlan, source: Seq<V>)
    requires
        plan_wf(plan),
        plan.dropped@.len() == 0,
        source.len() == plan.kept@.len(),
    ensures
        sp_widen(plan, source) == source,
        sp_widen(plan, sp_narrow(plan, sp_widen(plan, source), Seq::empty())) == source,
{
    lemma_full_reverse_identity(plan);
    assert(sp_widen(plan, source) =~= source);
    lemma_narrow_of_widen(plan, source, Seq::empty());
}

/// Round-trip law: widening what narrowing built gives back the subset
/// value exactly, whatever the extra arguments were.
pub proof fn lemma_widen_of_narrow<V>(plan: ConvPlan, subset: Seq<V>, extras: Seq<V>)
    requires
        plan_wf(plan),
        subset.len() == plan.kept@.len(),
        extras.len() == plan.dropped@.len(),
    ensures
        sp_widen(plan, sp_narrow(plan, subset, extras)) == subset,
{
    let narrowed = sp_narrow(plan, subset, extras);
    assert forall|x: int| 0 <= x < plan.kept@.len() implies sp_widen(plan, narrowed)[x]
        == subset[x] by {
        let m = plan.kept@[x].dst_index as int;
        assert(sp_kept_has(plan.kept@, m));
        lemma_kept_pos_unique(plan, x);
        assert(narrowed[m] == subset[x]);
    }
    assert(sp_widen(plan, narrowed) =~= subset);
}

/// Lossless law: with nothing excluded, narrowing what widening built,
/// with no extra arguments, gives back the source value exactly; source
/// and subset are then mutually convertible.
pub proof fn lemma_narrow_of_widen<V>(plan: ConvPlan, source: Seq<V>, extras: Seq<V>)
    requires
        plan_wf(plan),
        plan.dropped@.len() == 0,
        source.len() == plan.kept@.len(),
        extras.len() == 0,
    ensures
        sp_narrow(plan, sp_widen(plan, source), extras) == source,
{
    let widened = sp_widen(plan, source);
    assert forall|m: int| 0 <= m < source.len() implies sp_narrow(plan, widened, extras)[m]
        == source[m] by {
        assert(sp_kept_has(plan.kept@, m) || sp_dropped_has(plan.dropped@, m));
        if sp_dropped_has(plan.dropped@, m) {
            let j = choose|j: int|
                0 <= j < plan.dropped@.len() && (#[trigger] plan.dropped@[j]).index == m;
            assert(false);
        }
        let x = sp_kept_pos(plan.kept@, m);
        assert(0 <= x < plan.kept@.len() && plan.kept@[x].dst_index == m);
        assert(widened[x] == source[m]);
    }
    assert(sp_narrow(plan, widened, extras) =~= source);
}

} // verus!
