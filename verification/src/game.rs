//! The simulation engine: owns the registry, the named recipes, the
//! inventory and a monotonic tick counter. Registration validates a recipe
//! against the registry; a step checks requirements and ingredient shares,
//! then rewrites the whole inventory atomically and advances the counter.
//! Every step is a complete transaction: it either rejects before any
//! mutation or commits the fully rewritten state.

use crate::errors::GameError;
use crate::qty::{lemma_add_val, lemma_div_val, lemma_sub_val, Qty};
use crate::recipe::{list_valid, list_valid_for, Recipe};
use crate::resources::{last_index_of_name, lemma_last_index_of_name, Resource, ResourceMap};
use crate::state::StateVec;
use vstd::pervasive::VecAdditionalExecFns;
use vstd::prelude::*;

verus! {

/// Every standing requirement is met: the inventory at its handle holds at
/// least the full (undivided) amount.
pub open spec fn prereqs_met(inv: Seq<Qty>, items: Seq<(Resource, Qty)>) -> bool {
    forall|i: int|
        0 <= i < items.len() ==> {
            let (r, a) = #[trigger] items[i];
            inv[r.0 as int].spec_ge(a)
        }
}

/// Every per-step delta of `items` is representable: the reduced form of
/// `amount / ticks` fits in 64 bits.
pub open spec fn deltas_fit(items: Seq<(Resource, Qty)>, ticks: u64) -> bool {
    forall|i: int|
        0 <= i < items.len() ==> {
            let (r, a) = #[trigger] items[i];
            Qty::div_spec(a, ticks) is Some
        }
}

/// Every ingredient's per-step share is available: the inventory at its
/// handle is at least `amount / ticks`, as rational values.
pub open spec fn ingredients_met(inv: Seq<Qty>, items: Seq<(Resource, Qty)>, ticks: u64) -> bool {
    forall|i: int|
        0 <= i < items.len() ==> {
            let (r, a) = #[trigger] items[i];
            inv[r.0 as int].num * (a.den * ticks) >= a.num * inv[r.0 as int].den
        }
}

/// One per-step delta applied to one slot: subtracts (`consume`) or adds the
/// share `amount / ticks` at the item's handle. `None` where the share's or
/// the new slot value's representation does not fit, or a subtraction would
/// go below zero.
pub open spec fn apply_one(
    inv: Seq<Qty>,
    item: (Resource, Qty),
    ticks: u64,
    consume: bool,
) -> Option<Seq<Qty>> {
    let (r, a) = item;
    match Qty::div_spec(a, ticks) {
        None => None,
        Some(d) => {
            let cur = inv[r.0 as int];
            let next = if consume {
                Qty::sub_spec(cur, d)
            } else {
                Qty::add_spec(cur, d)
            };
            match next {
                None => None,
                Some(q) => Some(inv.update(r.0 as int, q)),
            }
        },
    }
}

/// All per-step deltas of `items` applied to `inv` in list order.
pub open spec fn apply_deltas(
    inv: Seq<Qty>,
    items: Seq<(Resource, Qty)>,
    ticks: u64,
    consume: bool,
) -> Option<Seq<Qty>>
    decreases items.len(),
{
    if items.len() == 0 {
        Some(inv)
    } else {
        match apply_deltas(inv, items.drop_last(), ticks, consume) {
            None => None,
            Some(v) => apply_one(v, items.last(), ticks, consume),
        }
    }
}

/// The inventory after one step of `recipe`: all ingredient shares
/// subtracted, then all output shares added; `None` where any intermediate
/// value's representation does not fit.
pub open spec fn step_inventory(inv: Seq<Qty>, recipe: Recipe) -> Option<Seq<Qty>> {
    match apply_deltas(inv, recipe.ingredients@, recipe.ticks, true) {
        None => None,
        Some(v) => apply_deltas(v, recipe.outputs@, recipe.ticks, false),
    }
}

/// The inventory after `k` successive steps of `recipe`.
pub open spec fn step_k(inv: Seq<Qty>, recipe: Recipe, k: nat) -> Option<Seq<Qty>>
    decreases k,
{
    if k == 0 {
        Some(inv)
    } else {
        match step_k(inv, recipe, (k - 1) as nat) {
            None => None,
            Some(v) => step_inventory(v, recipe),
        }
    }
}

/// Unfolds `apply_deltas` one item at a time over prefixes of `items`.
proof fn lemma_apply_deltas_step(
    inv: Seq<Qty>,
    items: Seq<(Resource, Qty)>,
    ticks: u64,
    consume: bool,
    j: int,
)
    requires
        0 <= j < items.len(),
    ensures
        apply_deltas(inv, items.take(j + 1), ticks, consume) == (match apply_deltas(
            inv,
            items.take(j),
            ticks,
            consume,
        ) {
            None => None,
            Some(v) => apply_one(v, items[j], ticks, consume),
        }),
{
    assert(items.take(j + 1).drop_last() =~= items.take(j));
    assert(items.take(j + 1).last() == items[j]);
}

/// Once a prefix of the items fails to apply, the whole list fails.
proof fn lemma_apply_deltas_none_persists(
    inv: Seq<Qty>,
    items: Seq<(Resource, Qty)>,
    ticks: u64,
    consume: bool,
    j: int,
)
    requires
        0 <= j <= items.len(),
        apply_deltas(inv, items.take(j), ticks, consume) is None,
    ensures
        apply_deltas(inv, items, ticks, consume) is None,
    decreases items.len() - j,
{
    if j == items.len() {
        assert(items.take(j) =~= items);
    } else {
        lemma_apply_deltas_step(inv, items, ticks, consume, j);
        lemma_apply_deltas_none_persists(inv, items, ticks, consume, j + 1);
    }
}

/// Applying deltas never changes the inventory's length.
proof fn lemma_apply_deltas_len(
    inv: Seq<Qty>,
    items: Seq<(Resource, Qty)>,
    ticks: u64,
    consume: bool,
)
    requires
        list_valid_for(items, inv.len() as int),
        apply_deltas(inv, items, ticks, consume) is Some,
    ensures
        apply_deltas(inv, items, ticks, consume)->Some_0.len() == inv.len(),
    decreases items.len(),
{
    if items.len() > 0 {
        assert(forall|i: int|
            0 <= i < items.drop_last().len() ==> items.drop_last()[i] == items[i]);
        lemma_apply_deltas_len(inv, items.drop_last(), ticks, consume);
        let v = apply_deltas(inv, items.drop_last(), ticks, consume)->Some_0;
        let (r, a) = items.last();
        assert(((items[items.len() - 1]).0).0 < inv.len());
        assert(apply_deltas(inv, items, ticks, consume) == apply_one(v, items.last(), ticks, consume));
        assert(apply_one(v, items.last(), ticks, consume)->Some_0.len() == v.len());
    }
}

/// Applying deltas of well-formed amounts keeps every slot well-formed.
proof fn lemma_apply_deltas_wf(
    inv: Seq<Qty>,
    items: Seq<(Resource, Qty)>,
    ticks: u64,
    consume: bool,
)
    requires
        ticks >= 1,
        list_valid_for(items, inv.len() as int),
        forall|i: int| 0 <= i < inv.len() ==> (#[trigger] inv[i]).wf(),
        forall|i: int| 0 <= i < items.len() ==> (#[trigger] items[i]).1.wf(),
        apply_deltas(inv, items, ticks, consume) is Some,
    ensures
        forall|i: int|
            0 <= i < apply_deltas(inv, items, ticks, consume)->Some_0.len() ==> (
            #[trigger] apply_deltas(inv, items, ticks, consume)->Some_0[i]).wf(),
    decreases items.len(),
{
    if items.len() > 0 {
        assert(forall|i: int|
            0 <= i < items.drop_last().len() ==> items.drop_last()[i] == items[i]);
        lemma_apply_deltas_wf(inv, items.drop_last(), ticks, consume);
        lemma_apply_deltas_len(inv, items.drop_last(), ticks, consume);
        let v = apply_deltas(inv, items.drop_last(), ticks, consume)->Some_0;
        let (r, a) = items.last();
        assert(a == (items[items.len() - 1]).1);
        assert(a.wf());
        assert(apply_deltas(inv, items, ticks, consume) == apply_one(v, items.last(), ticks, consume));
        lemma_div_val(a, ticks);
        let d = Qty::div_spec(a, ticks)->Some_0;
        assert(((items[items.len() - 1]).0).0 < inv.len());
        let cur = v[r.0 as int];
        assert(cur.wf());
        if consume {
            lemma_sub_val(cur, d);
        } else {
            lemma_add_val(cur, d);
        }
        let result = apply_deltas(inv, items, ticks, consume)->Some_0;
        assert forall|i: int| 0 <= i < result.len() implies (#[trigger] result[i]).wf() by {
            if i != r.0 as int {
                assert(result[i] == v[i]);
            }
        }
    }
}

/// A slot whose handle appears in no item keeps its exact old value.
proof fn lemma_apply_deltas_untouched(
    inv: Seq<Qty>,
    items: Seq<(Resource, Qty)>,
    ticks: u64,
    consume: bool,
    slot: int,
)
    requires
        list_valid_for(items, inv.len() as int),
        forall|i: int| 0 <= i < items.len() ==> ((#[trigger] items[i]).0).0 != slot,
        apply_deltas(inv, items, ticks, consume) is Some,
        0 <= slot < inv.len(),
    ensures
        apply_deltas(inv, items, ticks, consume)->Some_0[slot] == inv[slot],
    decreases items.len(),
{
    if items.len() > 0 {
        assert(forall|i: int|
            0 <= i < items.drop_last().len() ==> items.drop_last()[i] == items[i]);
        lemma_apply_deltas_untouched(inv, items.drop_last(), ticks, consume, slot);
        lemma_apply_deltas_len(inv, items.drop_last(), ticks, consume);
        let v = apply_deltas(inv, items.drop_last(), ticks, consume)->Some_0;
        let (r, a) = items.last();
        assert(((items[items.len() - 1]).0).0 != slot);
        assert(((items[items.len() - 1]).0).0 < inv.len());
        assert(apply_deltas(inv, items, ticks, consume) == apply_one(v, items.last(), ticks, consume));
        let result = apply_deltas(inv, items, ticks, consume)->Some_0;
        assert(result[slot] == v[slot]);
    }
}

/// Copies a quantity vector.
fn copy_quantities(inv: &Vec<Qty>) -> (r: Vec<Qty>)
    ensures
        r@ == inv@,
{
    let mut out: Vec<Qty> = Vec::new();
    let mut i: usize = 0;
    while i < inv.len()
        invariant
            i <= inv@.len(),
            out@ == inv@.take(i as int),
        decreases inv@.len() - i,
    {
        out.push(inv[i]);
        proof {
            assert(out@ =~= inv@.take(i as int + 1));
        }
        i = i + 1;
    }
    proof {
        assert(inv@.take(inv@.len() as int) =~= inv@);
    }
    out
}

/// Applies all per-step deltas of `items` to a copy of `inv`, in list order;
/// returns the new vector, or `None` exactly where the specification does.
fn apply_deltas_vec(
    inv: &Vec<Qty>,
    items: &Vec<(Resource, Qty)>,
    ticks: u64,
    consume: bool,
) -> (r: Option<Vec<Qty>>)
    requires
        ticks >= 1,
        forall|i: int| 0 <= i < inv@.len() ==> (#[trigger] inv@[i]).wf(),
        forall|i: int| 0 <= i < items@.len() ==> (#[trigger] items@[i]).1.wf(),
        list_valid_for(items@, inv@.len() as int),
    ensures
        match r {
            Some(v) => apply_deltas(inv@, items@, ticks, consume) == Some(v@),
            None => apply_deltas(inv@, items@, ticks, consume) is None,
        },
{
    let mut cur = copy_quantities(inv);
    let mut j: usize = 0;
    proof {
        assert(items@.take(0) =~= Seq::<(Resource, Qty)>::empty());
    }
    while j < items.len()
        invariant
            j <= items@.len(),
            ticks >= 1,
            forall|i: int| 0 <= i < items@.len() ==> (#[trigger] items@[i]).1.wf(),
            list_valid_for(items@, inv@.len() as int),
            cur@.len() == inv@.len(),
            forall|i: int| 0 <= i < cur@.len() ==> (#[trigger] cur@[i]).wf(),
            apply_deltas(inv@, items@.take(j as int), ticks, consume) == Some(cur@),
        decreases items@.len() - j,
    {
        let (res, amt) = items[j];
        proof {
            lemma_apply_deltas_step(inv@, items@, ticks, consume, j as int);
        }
        match amt.div_by(ticks) {
            None => {
                proof {
                    lemma_apply_deltas_none_persists(inv@, items@, ticks, consume, j as int + 1);
                }
                return None;
            },
            Some(d) => {
                proof {
                    lemma_div_val((items@[j as int]).1, ticks);
                }
                let slot = cur[res.0];
                let next = if consume {
                    slot.try_sub(d)
                } else {
                    slot.try_add(d)
                };
                match next {
                    None => {
                        proof {
                            lemma_apply_deltas_none_persists(
                                inv@,
                                items@,
                                ticks,
                                consume,
                                j as int + 1,
                            );
                        }
                        return None;
                    },
                    Some(q) => {
                        proof {
                            if consume {
                                lemma_sub_val(slot, d);
                            } else {
                                lemma_add_val(slot, d);
                            }
                        }
                        cur.set(res.0, q);
                    },
                }
            },
        }
        j = j + 1;
    }
    proof {
        assert(items@.take(items@.len() as int) =~= items@);
    }
    Some(cur)
}

/// Checks that every standing requirement of `items` is met by `inv`.
fn check_prereqs(inv: &StateVec, items: &Vec<(Resource, Qty)>) -> (r: bool)
    requires
        list_valid_for(items@, inv.quantities().len() as int),
    ensures
        r == prereqs_met(inv.quantities(), items@),
{
    let mut j: usize = 0;
    while j < items.len()
        invariant
            j <= items@.len(),
            list_valid_for(items@, inv.quantities().len() as int),
            forall|i: int|
                0 <= i < j ==> {
                    let (r2, a) = #[trigger] items@[i];
                    inv.quantities()[r2.0 as int].spec_ge(a)
                },
        decreases items@.len() - j,
    {
        let (res, amt) = items[j];
        if !inv.get(res).ge(amt) {
            return false;
        }
        j = j + 1;
    }
    true
}

/// Checks that every per-step delta of `items` is representable.
fn check_deltas_fit(items: &Vec<(Resource, Qty)>, ticks: u64) -> (r: bool)
    requires
        ticks >= 1,
        forall|i: int| 0 <= i < items@.len() ==> (#[trigger] items@[i]).1.wf(),
    ensures
        r == deltas_fit(items@, ticks),
{
    let mut j: usize = 0;
    while j < items.len()
        invariant
            j <= items@.len(),
            ticks >= 1,
            forall|i: int| 0 <= i < items@.len() ==> (#[trigger] items@[i]).1.wf(),
            forall|i: int|
                0 <= i < j ==> {
                    let (r2, a) = #[trigger] items@[i];
                    Qty::div_spec(a, ticks) is Some
                },
        decreases items@.len() - j,
    {
        let (_, amt) = items[j];
        if amt.div_by(ticks).is_none() {
            return false;
        }
        j = j + 1;
    }
    true
}

/// The per-step comparison through the reduced share equals the value-level
/// statement: the inventory slot is at least `amount / ticks` exactly when
/// the cross-multiplied inequality over the raw amounts holds.
proof fn lemma_share_ge_equiv(slot: Qty, a: Qty, ticks: u64)
    requires
        slot.wf(),
        a.wf(),
        ticks >= 1,
        Qty::div_spec(a, ticks) is Some,
    ensures
        ({
            let share = Qty::div_spec(a, ticks)->Some_0;
            slot.spec_ge(share) <==> slot.num * (a.den * ticks) >= a.num * slot.den
        }),
{
    lemma_div_val(a, ticks);
    let share = Qty::div_spec(a, ticks)->Some_0;
    let iv = slot.num as int;
    let id = slot.den as int;
    let sn = share.num as int;
    let sd = share.den as int;
    let an = a.num as int;
    let w = a.den * ticks;
    assert(w >= 1) by (nonlinear_arith)
        requires
            w == a.den * ticks,
            a.den >= 1,
            ticks >= 1,
    ;
    if iv * sd >= sn * id {
        assert((iv * sd) * w >= (sn * id) * w) by (nonlinear_arith)
            requires
                iv * sd >= sn * id,
                w >= 1,
        ;
        assert((sn * id) * w == (an * id) * sd) by (nonlinear_arith)
            requires
                sn * w == an * sd,
        ;
        assert((iv * sd) * w == (iv * w) * sd) by (nonlinear_arith);
        assert(iv * w >= an * id) by (nonlinear_arith)
            requires
                (iv * w) * sd >= (an * id) * sd,
                sd >= 1,
        ;
    }
    if iv * w >= an * id {
        assert((iv * w) * sd >= (an * id) * sd) by (nonlinear_arith)
            requires
                iv * w >= an * id,
                sd >= 1,
        ;
        assert((an * id) * sd == (sn * id) * w) by (nonlinear_arith)
            requires
                sn * w == an * sd,
        ;
        assert((iv * w) * sd == (iv * sd) * w) by (nonlinear_arith);
        assert(iv * sd >= sn * id) by (nonlinear_arith)
            requires
                (iv * sd) * w >= (sn * id) * w,
                w >= 1,
        ;
    }
}

/// Checks that every ingredient's per-step share is available in `inv`.
fn check_ingredients(inv: &StateVec, items: &Vec<(Resource, Qty)>, ticks: u64) -> (r: bool)
    requires
        ticks >= 1,
        inv.wf(),
        forall|i: int| 0 <= i < items@.len() ==> (#[trigger] items@[i]).1.wf(),
        list_valid_for(items@, inv.quantities().len() as int),
        deltas_fit(items@, ticks),
    ensures
        r == ingredients_met(inv.quantities(), items@, ticks),
{
    let mut j: usize = 0;
    while j < items.len()
        invariant
            j <= items@.len(),
            ticks >= 1,
            inv.wf(),
            forall|i: int| 0 <= i < items@.len() ==> (#[trigger] items@[i]).1.wf(),
            list_valid_for(items@, inv.quantities().len() as int),
            deltas_fit(items@, ticks),
            forall|i: int|
                0 <= i < j ==> {
                    let (r2, a) = #[trigger] items@[i];
                    inv.quantities()[r2.0 as int].num * (a.den * ticks) >= a.num
                        * inv.quantities()[r2.0 as int].den
                },
        decreases items@.len() - j,
    {
        let (res, amt) = items[j];
        let share = match amt.div_by(ticks) {
            Some(d) => d,
            None => {
                proof {
                    assert((items@[j as int]).1 == amt);
                    assert(false);
                }
                return false;
            },
        };
        let slot = inv.get(res);
        proof {
            lemma_share_ge_equiv(slot, amt, ticks);
        }
        if !slot.ge(share) {
            return false;
        }
        j = j + 1;
    }
    true
}

/// The simulation engine: the registry (fixed after construction), the
/// registered recipes, the inventory, and the tick counter.
pub struct Game {
    /// The resource registry the engine was built from.
    pub resources: ResourceMap,
    /// Registered recipes, uniquely keyed, in registration order.
    pub recipes: Vec<(String, Recipe)>,
    /// The current inventory, one slot per registered resource.
    pub inventory: StateVec,
    /// Completed successful steps since construction.
    pub time: i64,
}

impl Game {
    /// The recipe keys, in registration order.
    pub open spec fn keys(self) -> Seq<Seq<char>> {
        Seq::new(self.recipes@.len(), |i: int| (self.recipes@[i].0)@)
    }

    /// How many resources the registry holds.
    pub open spec fn resource_count(self) -> int {
        self.resources.names().len() as int
    }

    /// A recipe is registered under `key`.
    pub open spec fn spec_has_recipe(self, key: Seq<char>) -> bool {
        exists|i: int| 0 <= i < self.keys().len() && self.keys()[i] == key
    }

    /// Engine invariant: the inventory has one well-formed slot per
    /// registered resource; recipe keys are unique; every registered recipe
    /// is well-formed and mentions only valid handles; the tick counter
    /// never runs backward.
    pub open spec fn wf(self) -> bool {
        &&& self.inventory.quantities().len() == self.resource_count()
        &&& self.inventory.wf()
        &&& forall|i: int, j: int|
            0 <= i < j < self.keys().len() ==> self.keys()[i] != self.keys()[j]
        &&& forall|i: int| 0 <= i < self.recipes@.len() ==> (#[trigger] self.recipes@[i]).1.wf()
        &&& forall|i: int|
            0 <= i < self.recipes@.len() ==> (#[trigger] self.recipes@[i]).1.valid_for(
                self.resource_count(),
            )
        &&& self.time >= 0
    }

    /// A fresh engine over `resources`: no recipes, an all-zero inventory,
    /// and a tick counter at zero.
    pub fn new(resources: ResourceMap) -> (g: Game)
        ensures
            g.wf(),
            g.resources == resources,
            g.keys().len() == 0,
            g.time == 0,
            g.inventory.quantities().len() == resources.names().len(),
            forall|i: int|
                0 <= i < g.inventory.quantities().len() ==> g.inventory.quantities()[i] == (Qty {
                    num: 0u64,
                    den: 1u64,
                }),
    {
        let inventory = StateVec::empty(&resources);
        Game { resources, recipes: Vec::new(), inventory, time: 0 }
    }

    /// The index of the recipe registered under `key`, if any.
    fn find_recipe(&self, key: &str) -> (r: Option<usize>)
        ensures
            r is Some <==> self.spec_has_recipe(key@),
            r is Some <==> last_index_of_name(self.keys(), key@) >= 0,
            r matches Some(i) ==> i == last_index_of_name(self.keys(), key@) && i
                < self.recipes@.len() && (self.recipes@[i as int].0)@ == key@,
    {
        let needle: String = key.to_string();
        let mut i: usize = self.recipes.len();
        while i > 0
            invariant
                i <= self.recipes@.len(),
                needle@ == key@,
                forall|j: int| i <= j < self.keys().len() ==> self.keys()[j] != key@,
            decreases i,
        {
            i = i - 1;
            if self.recipes[i].0 == needle {
                proof {
                    lemma_last_index_of_name(self.keys(), key@);
                    let r = last_index_of_name(self.keys(), key@);
                    assert(self.keys()[i as int] == key@);
                    assert(r >= i) by {
                        if r < i {
                            assert(self.keys()[i as int] != key@);
                        }
                    }
                    assert(r <= i) by {
                        if r > i {
                            assert(self.keys()[r] != key@);
                        }
                    }
                }
                return Some(i);
            }
        }
        proof {
            lemma_last_index_of_name(self.keys(), key@);
        }
        None
    }

    /// Registers `recipe` under the fresh key `name`. Fails with
    /// `DuplicateRecipeKey` when the key is taken (leaving the earlier
    /// definition unchanged), and with `InvalidResourceReference` when the
    /// recipe mentions any handle outside the registry. Nothing else of the
    /// engine changes; a stored recipe is never mutated afterwards.
    pub fn add_recipe(&mut self, name: &str, recipe: Recipe) -> (r: Result<(), GameError>)
        requires
            old(self).wf(),
            recipe.wf(),
        ensures
            final(self).wf(),
            r is Ok <==> (!old(self).spec_has_recipe(name@) && recipe.valid_for(
                old(self).resource_count(),
            )),
            r is Err ==> *final(self) == *old(self),
            r matches Err(e) ==> ((e == GameError::DuplicateRecipeKey && old(self).spec_has_recipe(
                name@,
            )) || (e == GameError::InvalidResourceReference && !old(self).spec_has_recipe(name@)
                && !recipe.valid_for(old(self).resource_count()))),
            r is Ok ==> final(self).recipes@.len() == old(self).recipes@.len() + 1
                && final(self).recipes@.subrange(0, old(self).recipes@.len() as int) == old(
                self,
            ).recipes@ && (final(self).recipes@.last().0)@ == name@
                && final(self).recipes@.last().1 == recipe,
            final(self).resources == old(self).resources,
            final(self).inventory == old(self).inventory,
            final(self).time == old(self).time,
    {
        match self.find_recipe(name) {
            Some(_) => Err(GameError::DuplicateRecipeKey),
            None => {
                let ok_ing = list_valid(&recipe.ingredients, &self.resources);
                let ok_out = list_valid(&recipe.outputs, &self.resources);
                let ok_req = list_valid(&recipe.requirements, &self.resources);
                if !ok_ing || !ok_out || !ok_req {
                    Err(GameError::InvalidResourceReference)
                } else {
                    self.recipes.push((name.to_string(), recipe));
                    proof {
                        assert(final(self).recipes@.subrange(0, old(self).recipes@.len() as int)
                            =~= old(self).recipes@);
                        assert(final(self).keys() =~= old(self).keys().push(name@));
                        assert forall|i: int, j: int|
                            0 <= i < j < final(self).keys().len() implies final(self).keys()[i]
                            != final(self).keys()[j] by {
                            if j == final(self).keys().len() - 1 {
                                assert(old(self).keys()[i] != name@);
                            }
                        }
                    }
                    Ok(())
                }
            },
        }
    }

    /// Advances the simulation by one step of the recipe under
    /// `recipe_name`: looks the recipe up, checks every standing requirement
    /// in full, checks every ingredient's per-step share, then commits the
    /// fully rewritten inventory and increments the tick counter. A step is
    /// a complete transaction: on any failure the engine is exactly as it
    /// was, with no observable partial application.
    ///
    /// Every applied share is reduced, so denominators stay bounded and
    /// ordinary recipes step indefinitely; `QuantityOverflow` arises only
    /// where even a reduced value falls outside the 64-bit range.
    pub fn tick(&mut self, recipe_name: &str) -> (r: Result<(), GameError>)
        requires
            old(self).wf(),
            old(self).time < i64::MAX,
        ensures
            final(self).wf(),
            final(self).resources == old(self).resources,
            final(self).recipes == old(self).recipes,
            r is Err ==> *final(self) == *old(self),
            ({
                let idx = last_index_of_name(old(self).keys(), recipe_name@);
                let inv = old(self).inventory.quantities();
                if idx < 0 {
                    r == Err::<(), GameError>(GameError::RecipeNotFound)
                } else {
                    let rec = old(self).recipes@[idx].1;
                    if !prereqs_met(inv, rec.requirements@) {
                        r == Err::<(), GameError>(GameError::MissingPrerequisites)
                    } else if !(deltas_fit(rec.ingredients@, rec.ticks) && deltas_fit(
                        rec.outputs@,
                        rec.ticks,
                    )) {
                        r == Err::<(), GameError>(GameError::QuantityOverflow)
                    } else if !ingredients_met(inv, rec.ingredients@, rec.ticks) {
                        r == Err::<(), GameError>(GameError::MissingIngredients)
                    } else if step_inventory(inv, rec) is None {
                        r == Err::<(), GameError>(GameError::QuantityOverflow)
                    } else {
                        r == Ok::<(), GameError>(()) && final(self).inventory.quantities()
                            == step_inventory(inv, rec)->Some_0 && final(self).time == old(
                            self,
                        ).time + 1
                    }
                }
            }),
    {
        proof {
            lemma_last_index_of_name(self.keys(), recipe_name@);
        }
        let idx = match self.find_recipe(recipe_name) {
            None => {
                return Err(GameError::RecipeNotFound);
            },
            Some(i) => i,
        };
        let ghost grec = self.recipes@[idx as int].1;
        let rec = &self.recipes[idx].1;
        proof {
            assert(grec.wf() && grec.valid_for(self.resource_count()));
        }
        if !check_prereqs(&self.inventory, &rec.requirements) {
            return Err(GameError::MissingPrerequisites);
        }
        if !check_deltas_fit(&rec.ingredients, rec.ticks) || !check_deltas_fit(
            &rec.outputs,
            rec.ticks,
        ) {
            return Err(GameError::QuantityOverflow);
        }
        if !check_ingredients(&self.inventory, &rec.ingredients, rec.ticks) {
            return Err(GameError::MissingIngredients);
        }
        let ghost inv0 = self.inventory.quantities();
        let mid = match apply_deltas_vec(
            &self.inventory.resources,
            &rec.ingredients,
            rec.ticks,
            true,
        ) {
            None => {
                return Err(GameError::QuantityOverflow);
            },
            Some(v) => v,
        };
        proof {
            lemma_apply_deltas_len(inv0, grec.ingredients@, grec.ticks, true);
            lemma_apply_deltas_wf(inv0, grec.ingredients@, grec.ticks, true);
        }
        let newv = match apply_deltas_vec(&mid, &rec.outputs, rec.ticks, false) {
            None => {
                return Err(GameError::QuantityOverflow);
            },
            Some(v) => v,
        };
        proof {
            lemma_apply_deltas_len(inv0, grec.ingredients@, grec.ticks, true);
            lemma_apply_deltas_wf(inv0, grec.ingredients@, grec.ticks, true);
            lemma_apply_deltas_len(mid@, grec.outputs@, grec.ticks, false);
            lemma_apply_deltas_wf(mid@, grec.outputs@, grec.ticks, false);
            assert(step_inventory(inv0, grec) == Some(newv@));
        }
        self.inventory = StateVec::new(newv);
        self.time = self.time + 1;
        Ok(())
    }
}

/// Requirements are non-consuming: a resource that no ingredient and no
/// output of `recipe` mentions — in particular one that appears only in its
/// `requirements` gate — keeps its exact value across any number of
/// successful steps.
pub proof fn lemma_requires_non_consuming(inv: Seq<Qty>, recipe: Recipe, slot: int, k: nat)
    requires
        recipe.valid_for(inv.len() as int),
        0 <= slot < inv.len(),
        forall|i: int|
            0 <= i < recipe.ingredients@.len() ==> ((#[trigger] recipe.ingredients@[i]).0).0
                != slot,
        forall|i: int|
            0 <= i < recipe.outputs@.len() ==> ((#[trigger] recipe.outputs@[i]).0).0 != slot,
        step_k(inv, recipe, k) is Some,
    ensures
        step_k(inv, recipe, k)->Some_0.len() == inv.len(),
        step_k(inv, recipe, k)->Some_0[slot] == inv[slot],
    decreases k,
{
    if k > 0 {
        lemma_requires_non_consuming(inv, recipe, slot, (k - 1) as nat);
        let v = step_k(inv, recipe, (k - 1) as nat)->Some_0;
        lemma_apply_deltas_len(v, recipe.ingredients@, recipe.ticks, true);
        lemma_apply_deltas_untouched(v, recipe.ingredients@, recipe.ticks, true, slot);
        let m = apply_deltas(v, recipe.ingredients@, recipe.ticks, true)->Some_0;
        lemma_apply_deltas_len(m, recipe.outputs@, recipe.ticks, false);
        lemma_apply_deltas_untouched(m, recipe.outputs@, recipe.ticks, false, slot);
    }
}

/// Fractional accumulation: for a recipe with no ingredients and a single
/// output of amount `a = a.num / a.den` realized over `ticks` steps, `k`
/// successful steps leave the output's slot at its starting value `s` plus
/// exactly `k * a.num / (a.den * ticks)` — stated by cross-multiplication
/// over the slot values, since representations may differ.
pub proof fn lemma_fractional_accumulation(inv: Seq<Qty>, recipe: Recipe, k: nat)
    requires
        recipe.wf(),
        recipe.ingredients@.len() == 0,
        recipe.outputs@.len() == 1,
        recipe.valid_for(inv.len() as int),
        inv[((recipe.outputs@[0]).0).0 as int].wf(),
        step_k(inv, recipe, k) is Some,
    ensures
        step_k(inv, recipe, k)->Some_0.len() == inv.len(),
        ({
            let (r, a) = recipe.outputs@[0];
            let n = recipe.ticks;
            let s = inv[r.0 as int];
            let v = step_k(inv, recipe, k)->Some_0[r.0 as int];
            v.wf() && v.num * (s.den * (a.den * n)) == s.num * (v.den * (a.den * n)) + k * (a.num
                * (s.den * v.den))
        }),
    decreases k,
{
    let (r, a) = recipe.outputs@[0];
    let n = recipe.ticks;
    let s = inv[r.0 as int];
    let slot = r.0 as int;
    if k == 0 {
    } else {
        lemma_fractional_accumulation(inv, recipe, (k - 1) as nat);
        let pinv = step_k(inv, recipe, (k - 1) as nat)->Some_0;
        let p = pinv[slot];
        assert(apply_deltas(pinv, recipe.ingredients@, recipe.ticks, true) == Some(pinv));
        assert(recipe.outputs@.drop_last() =~= Seq::<(Resource, Qty)>::empty());
        assert(recipe.outputs@.last() == recipe.outputs@[0]);
        assert(apply_deltas(pinv, recipe.outputs@.drop_last(), n, false) == Some(pinv));
        assert(step_inventory(pinv, recipe) == apply_one(pinv, recipe.outputs@[0], n, false));
        assert(a.wf());
        assert(Qty::div_spec(a, n) is Some);
        lemma_div_val(a, n);
        let d = Qty::div_spec(a, n)->Some_0;
        assert(p.wf());
        assert(Qty::add_spec(p, d) is Some);
        lemma_add_val(p, d);
        let q = Qty::add_spec(p, d)->Some_0;
        assert(0 <= slot < pinv.len());
        assert(step_k(inv, recipe, k)->Some_0 == pinv.update(slot, q));
        assert(step_k(inv, recipe, k)->Some_0[slot] == q);
        let sn = s.num as int;
        let sd = s.den as int;
        let pn = p.num as int;
        let pd = p.den as int;
        let an = a.num as int;
        let ad = a.den as int;
        let ni = n as int;
        let dn = d.num as int;
        let dd = d.den as int;
        let vn = q.num as int;
        let vd = q.den as int;
        let w = ad * ni;
        // Knowns: the division and addition denote the exact values
        //   (E1) dn * w == an * dd
        //   (E2) vn * (pd * dd) == (pn * dd + dn * pd) * vd
        // and the induction hypothesis
        //   (IH) pn * (sd * w) == sn * (pd * w) + (k - 1) * (an * (sd * pd)).
        // First turn (E2) into a dd-free step equation (E3).
        assert((vn * (pd * dd)) * w == ((pn * dd + dn * pd) * vd) * w) by (nonlinear_arith)
            requires
                vn * (pd * dd) == (pn * dd + dn * pd) * vd,
        ;
        assert(((pn * dd + dn * pd) * vd) * w == ((pn * dd) * vd) * w + ((dn * pd) * vd) * w)
            by (nonlinear_arith);
        assert(((pn * dd) * vd) * w == (pn * (vd * w)) * dd) by (nonlinear_arith);
        assert(((dn * pd) * vd) * w == (dn * w) * (pd * vd)) by (nonlinear_arith);
        assert((dn * w) * (pd * vd) == (an * (pd * vd)) * dd) by (nonlinear_arith)
            requires
                dn * w == an * dd,
        ;
        assert((vn * (pd * dd)) * w == (vn * (pd * w)) * dd) by (nonlinear_arith);
        assert(((pn * (vd * w)) + an * (pd * vd)) * dd == (pn * (vd * w)) * dd + (an * (pd * vd))
            * dd) by (nonlinear_arith);
        assert(vn * (pd * w) == pn * (vd * w) + an * (pd * vd)) by (nonlinear_arith)
            requires
                (vn * (pd * w)) * dd == ((pn * (vd * w)) + an * (pd * vd)) * dd,
                dd >= 1,
        ;
        // Then combine (E3) with (IH) and cancel pd.
        assert((vn * (sd * w)) * pd == (vn * (pd * w)) * sd) by (nonlinear_arith);
        assert((vn * (pd * w)) * sd == (pn * (vd * w)) * sd + (an * (pd * vd)) * sd)
            by (nonlinear_arith)
            requires
                vn * (pd * w) == pn * (vd * w) + an * (pd * vd),
        ;
        assert((pn * (vd * w)) * sd == (pn * (sd * w)) * vd) by (nonlinear_arith);
        assert((pn * (sd * w)) * vd == (sn * (pd * w)) * vd + ((k - 1) * (an * (sd * pd))) * vd)
            by (nonlinear_arith)
            requires
                pn * (sd * w) == sn * (pd * w) + (k - 1) * (an * (sd * pd)),
        ;
        assert((sn * (pd * w)) * vd == (sn * (vd * w)) * pd) by (nonlinear_arith);
        assert((an * (pd * vd)) * sd == (an * (sd * pd)) * vd) by (nonlinear_arith);
        assert(((k - 1) * (an * (sd * pd))) * vd == (k - 1) * ((an * (sd * pd)) * vd))
            by (nonlinear_arith);
        assert((k - 1) * ((an * (sd * pd)) * vd) + (an * (sd * pd)) * vd == k * ((an * (sd * pd))
            * vd)) by (nonlinear_arith);
        assert((an * (sd * pd)) * vd == (an * (sd * vd)) * pd) by (nonlinear_arith);
        assert(k * ((an * (sd * pd)) * vd) == k * ((an * (sd * vd)) * pd)) by (nonlinear_arith)
            requires
                (an * (sd * pd)) * vd == (an * (sd * vd)) * pd,
        ;
        assert(k * ((an * (sd * vd)) * pd) == (k * (an * (sd * vd))) * pd) by (nonlinear_arith);
        assert(((sn * (vd * w)) + k * (an * (sd * vd))) * pd == (sn * (vd * w)) * pd + (k * (an
            * (sd * vd))) * pd) by (nonlinear_arith);
        assert(vn * (sd * w) == sn * (vd * w) + k * (an * (sd * vd))) by (nonlinear_arith)
            requires
                (vn * (sd * w)) * pd == ((sn * (vd * w)) + k * (an * (sd * vd))) * pd,
                pd >= 1,
        ;
    }
}

/// Full realization: after exactly `ticks` successful steps of a recipe with
/// no ingredients and a single output of amount `a`, the output's slot has
/// risen by exactly `a` — `v == s + a.num / a.den` by cross-multiplication.
pub proof fn lemma_full_accumulation(inv: Seq<Qty>, recipe: Recipe)
    requires
        recipe.wf(),
        recipe.ingredients@.len() == 0,
        recipe.outputs@.len() == 1,
        recipe.valid_for(inv.len() as int),
        inv[((recipe.outputs@[0]).0).0 as int].wf(),
        step_k(inv, recipe, recipe.ticks as nat) is Some,
    ensures
        ({
            let (r, a) = recipe.outputs@[0];
            let s = inv[r.0 as int];
            let v = step_k(inv, recipe, recipe.ticks as nat)->Some_0[r.0 as int];
            v.num * (s.den * a.den) == s.num * (v.den * a.den) + a.num * (s.den * v.den)
        }),
{
    lemma_fractional_accumulation(inv, recipe, recipe.ticks as nat);
    let (r, a) = recipe.outputs@[0];
    let n = recipe.ticks;
    let s = inv[r.0 as int];
    let v = step_k(inv, recipe, n as nat)->Some_0[r.0 as int];
    let sn = s.num as int;
    let sd = s.den as int;
    let an = a.num as int;
    let ad = a.den as int;
    let ni = n as int;
    let vn = v.num as int;
    let vd = v.den as int;
    let w = ad * ni;
    assert(vn * (sd * w) == (vn * (sd * ad)) * ni) by (nonlinear_arith)
        requires
            w == ad * ni,
    ;
    assert(sn * (vd * w) == (sn * (vd * ad)) * ni) by (nonlinear_arith)
        requires
            w == ad * ni,
    ;
    assert(ni * (an * (sd * vd)) == (an * (sd * vd)) * ni) by (nonlinear_arith);
    assert((sn * (vd * ad)) * ni + (an * (sd * vd)) * ni == ((sn * (vd * ad)) + (an * (sd * vd)))
        * ni) by (nonlinear_arith);
    assert((vn * (sd * ad)) * ni == ((sn * (vd * ad)) + (an * (sd * vd))) * ni);
    assert(vn * (sd * ad) == sn * (vd * ad) + an * (sd * vd)) by (nonlinear_arith)
        requires
            (vn * (sd * ad)) * ni == ((sn * (vd * ad)) + (an * (sd * vd))) * ni,
            ni >= 1,
    ;
}

} // verus!
