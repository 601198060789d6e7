//! Authoring state: the set of placement indicators overlaid on the
//! board, and the role-cycling state machine that a selection event
//! (an accepted click resolved to a placement) drives.
//!
//! Two cycle orders are offered. The fixed cycle steps
//! any, foot-only, finish, removal. The default-first cycle takes the
//! list any, foot-only, start, finish, removal, and swaps the
//! placement's configured default role to the front; the final stop of
//! either order removes the indicator instead of reassigning it.

use vstd::prelude::*;

use crate::codec::{frames_rep, serialize_frames};

verus! {

/// Role id of a start hold.
pub const ROLE_START: u32 = 12;

/// Role id of a hold usable any way.
pub const ROLE_ANY: u32 = 13;

/// Role id of a finish hold.
pub const ROLE_FINISH: u32 = 14;

/// Role id of a foot-only hold.
pub const ROLE_FOOT_ONLY: u32 = 15;

/// One active overlay: a placement with its currently assigned role.
#[derive(Clone, Copy, Debug, PartialEq, Eq, Structural)]
pub struct PlacementIndicator {
    pub placement_id: u32,
    pub role_id: u32,
}

/// What one selection event did to the indicator set.
#[derive(Clone, Copy, Debug, PartialEq, Eq, Structural)]
pub enum IndicatorChange {
    /// A new indicator was created with this role.
    Added(u32),
    /// The indicator's role moved on to this role.
    Changed(u32),
    /// The cycle wrapped: the indicator was removed.
    Removed,
    /// The current role is outside the cycle order; nothing changed.
    NoOp,
}

/// The fixed cycle: any, foot-only, finish, then removal.
pub open spec fn fixed_cycle() -> Seq<Option<u32>> {
    seq![Some(ROLE_ANY), Some(ROLE_FOOT_ONLY), Some(ROLE_FINISH), None]
}

/// The default-first cycle: any, foot-only, start, finish, removal,
/// with the placement's default role (any, when it has none or an
/// unknown one) swapped to the front.
pub open spec fn default_first_cycle(default_role: Option<u32>) -> Seq<Option<u32>> {
    let first = match default_role {
        Some(r) => r,
        None => ROLE_ANY,
    };
    if first == ROLE_FOOT_ONLY {
        seq![Some(ROLE_FOOT_ONLY), Some(ROLE_ANY), Some(ROLE_START), Some(ROLE_FINISH), None]
    } else if first == ROLE_START {
        seq![Some(ROLE_START), Some(ROLE_FOOT_ONLY), Some(ROLE_ANY), Some(ROLE_FINISH), None]
    } else if first == ROLE_FINISH {
        seq![Some(ROLE_FINISH), Some(ROLE_FOOT_ONLY), Some(ROLE_START), Some(ROLE_ANY), None]
    } else {
        seq![Some(ROLE_ANY), Some(ROLE_FOOT_ONLY), Some(ROLE_START), Some(ROLE_FINISH), None]
    }
}

/// The fixed cycle as a list.
pub fn fixed_cycle_order() -> (v: Vec<Option<u32>>)
    ensures
        v@ == fixed_cycle(),
{
    let mut v: Vec<Option<u32>> = Vec::new();
    v.push(Some(ROLE_ANY));
    v.push(Some(ROLE_FOOT_ONLY));
    v.push(Some(ROLE_FINISH));
    v.push(None);
    proof {
        assert(v@ =~= fixed_cycle());
    }
    v
}

/// The default-first cycle as a list.
pub fn default_first_cycle_order(default_role: Option<u32>) -> (v: Vec<Option<u32>>)
    ensures
        v@ == default_first_cycle(default_role),
{
    let first = match default_role {
        Some(r) => r,
        None => ROLE_ANY,
    };
    let mut v: Vec<Option<u32>> = Vec::new();
    if first == ROLE_FOOT_ONLY {
        v.push(Some(ROLE_FOOT_ONLY));
        v.push(Some(ROLE_ANY));
        v.push(Some(ROLE_START));
        v.push(Some(ROLE_FINISH));
    } else if first == ROLE_START {
        v.push(Some(ROLE_START));
        v.push(Some(ROLE_FOOT_ONLY));
        v.push(Some(ROLE_ANY));
        v.push(Some(ROLE_FINISH));
    } else if first == ROLE_FINISH {
        v.push(Some(ROLE_FINISH));
        v.push(Some(ROLE_FOOT_ONLY));
        v.push(Some(ROLE_START));
        v.push(Some(ROLE_ANY));
    } else {
        v.push(Some(ROLE_ANY));
        v.push(Some(ROLE_FOOT_ONLY));
        v.push(Some(ROLE_START));
        v.push(Some(ROLE_FINISH));
    }
    v.push(None);
    proof {
        assert(v@ =~= default_first_cycle(default_role));
    }
    v
}

/// Index of the first indicator carrying the given placement id, or -1.
pub open spec fn pid_index(s: Seq<PlacementIndicator>, pid: u32) -> int
    decreases s.len(),
{
    if s.len() == 0 {
        -1
    } else if s[0].placement_id == pid {
        0
    } else {
        let r = pid_index(s.drop_first(), pid);
        if r < 0 {
            -1
        } else {
            1 + r
        }
    }
}

/// `pid_index` finds exactly the first occurrence.
pub proof fn lemma_pid_index(s: Seq<PlacementIndicator>, pid: u32)
    ensures
        pid_index(s, pid) == -1 ==> forall|k: int|
            0 <= k < s.len() ==> #[trigger] s[k].placement_id != pid,
        pid_index(s, pid) >= 0 ==> {
            &&& pid_index(s, pid) < s.len()
            &&& s[pid_index(s, pid)].placement_id == pid
            &&& forall|k: int| 0 <= k < pid_index(s, pid) ==> #[trigger] s[k].placement_id != pid
        },
    decreases s.len(),
{
    if s.len() > 0 && s[0].placement_id != pid {
        lemma_pid_index(s.drop_first(), pid);
        assert forall|k: int| 1 <= k < s.len() implies s.drop_first()[k - 1] == s[k] by {}
    }
}

/// Index of the first occurrence of `v` in the cycle order, or -1.
pub open spec fn order_index(s: Seq<Option<u32>>, v: Option<u32>) -> int
    decreases s.len(),
{
    if s.len() == 0 {
        -1
    } else if s[0] == v {
        0
    } else {
        let r = order_index(s.drop_first(), v);
        if r < 0 {
            -1
        } else {
            1 + r
        }
    }
}

/// `order_index` finds exactly the first occurrence.
pub proof fn lemma_order_index(s: Seq<Option<u32>>, v: Option<u32>)
    ensures
        order_index(s, v) == -1 ==> forall|k: int| 0 <= k < s.len() ==> #[trigger] s[k] != v,
        order_index(s, v) >= 0 ==> {
            &&& order_index(s, v) < s.len()
            &&& s[order_index(s, v)] == v
            &&& forall|k: int| 0 <= k < order_index(s, v) ==> #[trigger] s[k] != v
        },
    decreases s.len(),
{
    if s.len() > 0 && s[0] != v {
        lemma_order_index(s.drop_first(), v);
        assert forall|k: int| 1 <= k < s.len() implies s.drop_first()[k - 1] == s[k] by {}
    }
}

/// Finds the index of the indicator carrying the given placement id.
fn find_pid(items: &Vec<PlacementIndicator>, pid: u32) -> (r: Option<usize>)
    ensures
        match r {
            Some(i) => pid_index(items@, pid) == i && i < items@.len(),
            None => pid_index(items@, pid) == -1,
        },
{
    let n = items.len();
    let mut i: usize = 0;
    while i < n
        invariant
            n == items@.len(),
            0 <= i <= n,
            forall|k: int| 0 <= k < i ==> #[trigger] items@[k].placement_id != pid,
        decreases n - i,
    {
        if items[i].placement_id == pid {
            proof {
                lemma_pid_index(items@, pid);
                if pid_index(items@, pid) == -1 {
                    assert(items@[i as int].placement_id != pid);
                } else {
                    if pid_index(items@, pid) < i {
                        assert(items@[pid_index(items@, pid)].placement_id != pid);
                    }
                    if pid_index(items@, pid) > i {
                        assert(items@[i as int].placement_id != pid);
                    }
                }
            }
            return Some(i);
        }
        i = i + 1;
    }
    proof {
        lemma_pid_index(items@, pid);
        if pid_index(items@, pid) >= 0 {
            assert(items@[pid_index(items@, pid)].placement_id != pid);
        }
    }
    None
}

/// Finds the index of the given role within a cycle order.
fn find_order(order: &Vec<Option<u32>>, cur: u32) -> (r: Option<usize>)
    ensures
        match r {
            Some(p) => order_index(order@, Some(cur)) == p && p < order@.len(),
            None => order_index(order@, Some(cur)) == -1,
        },
{
    let n = order.len();
    let mut i: usize = 0;
    while i < n
        invariant
            n == order@.len(),
            0 <= i <= n,
            forall|k: int| 0 <= k < i ==> #[trigger] order@[k] != Some(cur),
        decreases n - i,
    {
        let here = match order[i] {
            Some(x) => x == cur,
            None => false,
        };
        if here {
            proof {
                lemma_order_index(order@, Some(cur));
                if order_index(order@, Some(cur)) == -1 {
                    assert(order@[i as int] != Some(cur));
                } else {
                    if order_index(order@, Some(cur)) < i {
                        assert(order@[order_index(order@, Some(cur))] != Some(cur));
                    }
                    if order_index(order@, Some(cur)) > i {
                        assert(order@[i as int] != Some(cur));
                    }
                }
            }
            return Some(i);
        }
        i = i + 1;
    }
    proof {
        lemma_order_index(order@, Some(cur));
        if order_index(order@, Some(cur)) >= 0 {
            assert(order@[order_index(order@, Some(cur))] != Some(cur));
        }
    }
    None
}

/// The transient authoring overlay: at most one indicator per placement
/// id, in creation order.
pub struct IndicatorSet {
    pub items: Vec<PlacementIndicator>,
}

impl IndicatorSet {
    /// Well-formedness: no placement id occurs twice.
    pub open spec fn wf(&self) -> bool {
        forall|i: int, j: int|
            0 <= i < j < self.items@.len() ==> #[trigger] self.items@[i].placement_id
                != #[trigger] self.items@[j].placement_id
    }

    /// The overlays, in creation order.
    pub open spec fn view_items(&self) -> Seq<PlacementIndicator> {
        self.items@
    }

    /// The `(placement_id, role_id)` pairs of the overlays, in order.
    pub open spec fn pairs(&self) -> Seq<(u32, u32)> {
        self.items@.map_values(|ind: PlacementIndicator| (ind.placement_id, ind.role_id))
    }

    /// An empty overlay set.
    pub fn new() -> (r: Self)
        ensures
            r.wf(),
            r.view_items().len() == 0,
    {
        IndicatorSet { items: Vec::new() }
    }

    /// The overlays as a list.
    pub fn items(&self) -> (r: &Vec<PlacementIndicator>)
        ensures
            r@ == self.view_items(),
    {
        &self.items
    }

    /// Drops every overlay.
    pub fn clear(&mut self)
        ensures
            final(self).wf(),
            final(self).view_items().len() == 0,
    {
        self.items.clear();
    }

    /// One selection event against an explicit cycle order (roles
    /// first, removal last): a placement without an indicator gets one
    /// with the order's first role; one with a role in the order moves
    /// to the next stop, the last stop removing the indicator; one with
    /// a role outside the order is left alone.
    fn select_in(&mut self, placement_id: u32, order: &Vec<Option<u32>>) -> (r: IndicatorChange)
        requires
            old(self).wf(),
            order@.len() >= 2,
            order@[order@.len() - 1] is None,
            forall|p: int| 0 <= p < order@.len() - 1 ==> (#[trigger] order@[p]) is Some,
        ensures
            final(self).wf(),
            ({
                let s = old(self).view_items();
                let idx = pid_index(s, placement_id);
                if idx < 0 {
                    &&& final(self).view_items() == s.push(
                        PlacementIndicator { placement_id, role_id: order@[0]->0 },
                    )
                    &&& r == IndicatorChange::Added(order@[0]->0)
                } else {
                    let p = order_index(order@, Some(s[idx].role_id));
                    if p < 0 {
                        &&& final(self).view_items() == s
                        &&& r == IndicatorChange::NoOp
                    } else if order@[p + 1] is Some {
                        let nr = order@[p + 1]->0;
                        &&& final(self).view_items() == s.update(
                            idx,
                            PlacementIndicator { placement_id, role_id: nr },
                        )
                        &&& r == IndicatorChange::Changed(nr)
                    } else {
                        &&& final(self).view_items() == s.remove(idx)
                        &&& r == IndicatorChange::Removed
                    }
                }
            }),
    {
        let ghost s = self.items@;
        match find_pid(&self.items, placement_id) {
            None => {
                proof {
                    lemma_pid_index(s, placement_id);
                }
                let first = order[0];
                let role = match first {
                    Some(role) => role,
                    None => {
                        proof {
                            assert(order@[0] is Some);
                            assert(false);
                        }
                        0
                    },
                };
                let ghost oldv = self.items@;
                self.items.push(PlacementIndicator { placement_id, role_id: role });
                proof {
                    assert forall|a: int, b: int|
                        0 <= a < b < self.items@.len() implies #[trigger] self.items@[a].placement_id
                        != #[trigger] self.items@[b].placement_id by {
                        if b < oldv.len() {
                            assert(self.items@[a] == oldv[a] && self.items@[b] == oldv[b]);
                        } else {
                            assert(self.items@[a] == oldv[a]);
                        }
                    }
                }
                IndicatorChange::Added(role)
            },
            Some(idx) => {
                proof {
                    lemma_pid_index(s, placement_id);
                }
                let cur = self.items[idx].role_id;
                match find_order(order, cur) {
                    None => {
                        IndicatorChange::NoOp
                    },
                    Some(p) => {
                        let m = order.len();
                        proof {
                            lemma_order_index(order@, Some(cur));
                            assert(p < order@.len() - 1) by {
                                assert(order@[order@.len() - 1] is None);
                                assert(order@[p as int] == Some(cur));
                            }
                        }
                        match order[p + 1] {
                            Some(nr) => {
                                let ghost oldv = self.items@;
                                self.items.set(idx, PlacementIndicator { placement_id, role_id: nr });
                                proof {
                                    assert forall|a: int, b: int|
                                        0 <= a < b < self.items@.len()
                                        implies #[trigger] self.items@[a].placement_id
                                        != #[trigger] self.items@[b].placement_id by {
                                        if a != idx {
                                            assert(self.items@[a] == oldv[a]);
                                        }
                                        if b != idx {
                                            assert(self.items@[b] == oldv[b]);
                                        }
                                    }
                                }
                                IndicatorChange::Changed(nr)
                            },
                            None => {
                                let ghost oldv = self.items@;
                                self.items.remove(idx);
                                proof {
                                    assert forall|a: int, b: int|
                                        0 <= a < b < self.items@.len()
                                        implies #[trigger] self.items@[a].placement_id
                                        != #[trigger] self.items@[b].placement_id by {
                                        let oa: int = if a < idx {
                                            a
                                        } else {
                                            a + 1
                                        };
                                        let ob: int = if b < idx {
                                            b
                                        } else {
                                            b + 1
                                        };
                                        assert(self.items@[a] == oldv[oa]);
                                        assert(self.items@[b] == oldv[ob]);
                                    }
                                }
                                IndicatorChange::Removed
                            },
                        }
                    },
                }
            },
        }
    }

    /// One selection event under the default-first cycle, the
    /// placement's configured default role coming first.
    pub fn select_default_first(&mut self, placement_id: u32, default_role: Option<u32>) -> (r:
        IndicatorChange)
        requires
            old(self).wf(),
        ensures
            final(self).wf(),
            ({
                let s = old(self).view_items();
                let order = default_first_cycle(default_role);
                let idx = pid_index(s, placement_id);
                if idx < 0 {
                    &&& final(self).view_items() == s.push(
                        PlacementIndicator { placement_id, role_id: order[0]->0 },
                    )
                    &&& r == IndicatorChange::Added(order[0]->0)
                } else {
                    let p = order_index(order, Some(s[idx].role_id));
                    if p < 0 {
                        &&& final(self).view_items() == s
                        &&& r == IndicatorChange::NoOp
                    } else if order[p + 1] is Some {
                        let nr = order[p + 1]->0;
                        &&& final(self).view_items() == s.update(
                            idx,
                            PlacementIndicator { placement_id, role_id: nr },
                        )
                        &&& r == IndicatorChange::Changed(nr)
                    } else {
                        &&& final(self).view_items() == s.remove(idx)
                        &&& r == IndicatorChange::Removed
                    }
                }
            }),
    {
        let order = default_first_cycle_order(default_role);
        self.select_in(placement_id, &order)
    }

    /// One selection event under the fixed cycle.
    pub fn select_fixed(&mut self, placement_id: u32) -> (r: IndicatorChange)
        requires
            old(self).wf(),
        ensures
            final(self).wf(),
            ({
                let s = old(self).view_items();
                let order = fixed_cycle();
                let idx = pid_index(s, placement_id);
                if idx < 0 {
                    &&& final(self).view_items() == s.push(
                        PlacementIndicator { placement_id, role_id: order[0]->0 },
                    )
                    &&& r == IndicatorChange::Added(order[0]->0)
                } else {
                    let p = order_index(order, Some(s[idx].role_id));
                    if p < 0 {
                        &&& final(self).view_items() == s
                        &&& r == IndicatorChange::NoOp
                    } else if order[p + 1] is Some {
                        let nr = order[p + 1]->0;
                        &&& final(self).view_items() == s.update(
                            idx,
                            PlacementIndicator { placement_id, role_id: nr },
                        )
                        &&& r == IndicatorChange::Changed(nr)
                    } else {
                        &&& final(self).view_items() == s.remove(idx)
                        &&& r == IndicatorChange::Removed
                    }
                }
            }),
    {
        let order = fixed_cycle_order();
        self.select_in(placement_id, &order)
    }

    /// Inserts one pair, replacing the role of an existing indicator
    /// for the same placement in place and otherwise appending.
    pub fn upsert(&mut self, placement_id: u32, role_id: u32)
        requires
            old(self).wf(),
        ensures
            final(self).wf(),
            ({
                let s = old(self).view_items();
                let idx = pid_index(s, placement_id);
                if idx < 0 {
                    final(self).view_items() == s.push(PlacementIndicator { placement_id, role_id })
                } else {
                    final(self).view_items() == s.update(
                        idx,
                        PlacementIndicator { placement_id, role_id },
                    )
                }
            }),
    {
        let ghost s = self.items@;
        match find_pid(&self.items, placement_id) {
            Some(i) => {
                let ghost oldv = self.items@;
                self.items.set(i, PlacementIndicator { placement_id, role_id });
                proof {
                    lemma_pid_index(s, placement_id);
                    assert forall|a: int, b: int|
                        0 <= a < b < self.items@.len() implies #[trigger] self.items@[a].placement_id
                        != #[trigger] self.items@[b].placement_id by {
                        if a != i {
                            assert(self.items@[a] == oldv[a]);
                        }
                        if b != i {
                            assert(self.items@[b] == oldv[b]);
                        }
                    }
                }
            },
            None => {
                proof {
                    lemma_pid_index(s, placement_id);
                }
                let ghost oldv = self.items@;
                self.items.push(PlacementIndicator { placement_id, role_id });
                proof {
                    assert forall|a: int, b: int|
                        0 <= a < b < self.items@.len() implies #[trigger] self.items@[a].placement_id
                        != #[trigger] self.items@[b].placement_id by {
                        if b < oldv.len() {
                            assert(self.items@[a] == oldv[a] && self.items@[b] == oldv[b]);
                        } else {
                            assert(self.items@[a] == oldv[a]);
                        }
                    }
                }
            },
        }
    }

    /// The folding of a pair list into an indicator sequence: each pair
    /// replaces the role of its placement's earlier indicator, or
    /// appends a new one.
    pub open spec fn upserted(s: Seq<PlacementIndicator>, pairs: Seq<(u32, u32)>) -> Seq<
        PlacementIndicator,
    >
        decreases pairs.len(),
    {
        if pairs.len() == 0 {
            s
        } else {
            let p = pairs[0];
            let idx = pid_index(s, p.0);
            let s1 = if idx < 0 {
                s.push(PlacementIndicator { placement_id: p.0, role_id: p.1 })
            } else {
                s.update(idx, PlacementIndicator { placement_id: p.0, role_id: p.1 })
            };
            Self::upserted(s1, pairs.drop_first())
        }
    }

    /// Replaces the whole overlay with the pairs of a route, first to
    /// last, later pairs for the same placement replacing earlier ones.
    pub fn rebuild(&mut self, pairs: &Vec<(u32, u32)>)
        ensures
            final(self).wf(),
            final(self).view_items() == Self::upserted(Seq::empty(), pairs@),
    {
        self.items.clear();
        let n = pairs.len();
        let mut i: usize = 0;
        proof {
            assert(pairs@.subrange(0, n as int) =~= pairs@);
        }
        while i < n
            invariant
                self.wf(),
                n == pairs@.len(),
                0 <= i <= n,
                Self::upserted(Seq::empty(), pairs@) == Self::upserted(
                    self.items@,
                    pairs@.subrange(i as int, n as int),
                ),
            decreases n - i,
        {
            let (pid, role) = pairs[i];
            let ghost pre = self.items@;
            let ghost rest = pairs@.subrange(i as int, n as int);
            self.upsert(pid, role);
            proof {
                assert(rest[0] == (pid, role));
                assert(rest.drop_first() =~= pairs@.subrange(i + 1, n as int));
                assert(Self::upserted(pre, rest) == Self::upserted(
                    self.items@,
                    pairs@.subrange(i + 1, n as int),
                ));
            }
            i = i + 1;
        }
        proof {
            assert(pairs@.subrange(n as int, n as int) =~= Seq::<(u32, u32)>::empty());
        }
    }

    /// Serializes the overlays into route notation, in creation order.
    pub fn frames(&self) -> (r: String)
        ensures
            r@ == frames_rep(self.pairs()),
    {
        let n = self.items.len();
        let mut pairs: Vec<(u32, u32)> = Vec::new();
        let mut i: usize = 0;
        while i < n
            invariant
                n == self.items@.len(),
                0 <= i <= n,
                pairs@ == self.items@.subrange(0, i as int).map_values(
                    |ind: PlacementIndicator| (ind.placement_id, ind.role_id),
                ),
            decreases n - i,
        {
            let ind = self.items[i];
            pairs.push((ind.placement_id, ind.role_id));
            proof {
                assert(pairs@ =~= self.items@.subrange(0, i + 1).map_values(
                    |ind: PlacementIndicator| (ind.placement_id, ind.role_id),
                ));
            }
            i = i + 1;
        }
        proof {
            assert(self.items@.subrange(0, n as int) =~= self.items@);
        }
        serialize_frames(&pairs)
    }
}

} // verus!
