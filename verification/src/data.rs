//! Board reference data: holes, placements, roles and climbs, held as
//! insertion-ordered tables keyed by id (climbs by uuid). The tables
//! replace the ambient maps of a host runtime with one explicitly owned
//! value passed into the codec and picker, keeping both the insertion
//! order (climbs are addressed by position) and the at-most-one-entry-
//! per-key invariant.

use vstd::prelude::*;


verus! {

/// A physical attachment point on the climbing wall, with raw integer
/// board coordinates.
#[derive(Debug)]
pub struct Hole {
    pub id: u32,
    pub product_id: u32,
    pub name: String,
    pub x: i32,
    pub y: i32,
    pub mirrored_hole_id: u32,
    pub mirror_group: u32,
}

/// A hole mounted in a specific spot of a specific layout.
#[derive(Clone, Copy, Debug, PartialEq, Eq, Structural)]
pub struct Placement {
    pub id: u32,
    pub layout_id: u32,
    pub hole_id: u32,
    pub set_id: u32,
    pub default_placement_role_id: Option<u32>,
}

/// A semantic role a placement can carry within a route, with its
/// display colors.
#[derive(Debug)]
pub struct PlacementRole {
    pub id: u32,
    pub product_id: u32,
    pub position: u32,
    pub name: String,
    pub full_name: String,
    pub led_color: String,
    pub screen_color: String,
}

/// A named, authored route: its notation text ("frames") plus metadata.
#[derive(Debug)]
pub struct Climb {
    pub uuid: String,
    pub name: String,
    pub description: String,
    pub hsm: u32,
    pub edge_left: i32,
    pub edge_right: i32,
    pub edge_bottom: i32,
    pub edge_top: i32,
    pub frames_count: u32,
    pub frames_pace: u32,
    pub frames: String,
    pub setter_id: u32,
    pub setter_username: String,
    pub layout_id: u32,
    pub is_draft: bool,
    pub is_listed: bool,
    pub angle: Option<u32>,
}

impl Clone for Climb {
    fn clone(&self) -> (r: Self)
        ensures
            r == *self,
    {
        Climb {
            uuid: self.uuid.clone(),
            name: self.name.clone(),
            description: self.description.clone(),
            hsm: self.hsm,
            edge_left: self.edge_left,
            edge_right: self.edge_right,
            edge_bottom: self.edge_bottom,
            edge_top: self.edge_top,
            frames_count: self.frames_count,
            frames_pace: self.frames_pace,
            frames: self.frames.clone(),
            setter_id: self.setter_id,
            setter_username: self.setter_username.clone(),
            layout_id: self.layout_id,
            is_draft: self.is_draft,
            is_listed: self.is_listed,
            angle: self.angle,
        }
    }
}

impl Default for Climb {
    /// An all-empty climb: blank text fields, zero numbers, no angle.
    fn default() -> (c: Self)
        ensures
            c.uuid@ == Seq::<char>::empty(),
            c.name@ == Seq::<char>::empty(),
            c.description@ == Seq::<char>::empty(),
            c.hsm == 0,
            c.edge_left == 0,
            c.edge_right == 0,
            c.edge_bottom == 0,
            c.edge_top == 0,
            c.frames_count == 0,
            c.frames_pace == 0,
            c.frames@ == Seq::<char>::empty(),
            c.setter_id == 0,
            c.setter_username@ == Seq::<char>::empty(),
            c.layout_id == 0,
            c.is_draft == false,
            c.is_listed == false,
            c.angle is None,
    {
        Climb {
            uuid: String::new(),
            name: String::new(),
            description: String::new(),
            hsm: 0,
            edge_left: 0,
            edge_right: 0,
            edge_bottom: 0,
            edge_top: 0,
            frames_count: 0,
            frames_pace: 0,
            frames: String::new(),
            setter_id: 0,
            setter_username: String::new(),
            layout_id: 0,
            is_draft: false,
            is_listed: false,
            angle: None,
        }
    }
}

/// Each hole id occurs at most once.
pub open spec fn hole_ids_unique(s: Seq<Hole>) -> bool {
    forall|i: int, j: int| 0 <= i < j < s.len() ==> #[trigger] s[i].id != #[trigger] s[j].id
}

/// Each placement id occurs at most once.
pub open spec fn placement_ids_unique(s: Seq<Placement>) -> bool {
    forall|i: int, j: int| 0 <= i < j < s.len() ==> #[trigger] s[i].id != #[trigger] s[j].id
}

/// Each role id occurs at most once.
pub open spec fn role_ids_unique(s: Seq<PlacementRole>) -> bool {
    forall|i: int, j: int| 0 <= i < j < s.len() ==> #[trigger] s[i].id != #[trigger] s[j].id
}

/// Each climb uuid occurs at most once.
pub open spec fn climb_uuids_unique(s: Seq<Climb>) -> bool {
    forall|i: int, j: int| 0 <= i < j < s.len() ==> #[trigger] s[i].uuid@ != #[trigger] s[j].uuid@
}

/// The whole board reference data set: immutable wall geometry and role
/// tables, plus the mutable climb collection, all in insertion order.
pub struct KilterData {
    pub holes: Vec<Hole>,
    pub placements: Vec<Placement>,
    pub placement_roles: Vec<PlacementRole>,
    pub climbs: Vec<Climb>,
}

impl KilterData {
    /// Well-formedness: every table keeps at most one entry per key.
    pub open spec fn wf(&self) -> bool {
        &&& hole_ids_unique(self.holes@)
        &&& placement_ids_unique(self.placements@)
        &&& role_ids_unique(self.placement_roles@)
        &&& climb_uuids_unique(self.climbs@)
    }

    /// An empty data set.
    pub fn new() -> (r: Self)
        ensures
            r.wf(),
            r.holes@.len() == 0,
            r.placements@.len() == 0,
            r.placement_roles@.len() == 0,
            r.climbs@.len() == 0,
    {
        KilterData {
            holes: Vec::new(),
            placements: Vec::new(),
            placement_roles: Vec::new(),
            climbs: Vec::new(),
        }
    }

    /// Looks a hole up by id.
    pub fn hole_by_id(&self, id: u32) -> (r: Option<&Hole>)
        requires
            self.wf(),
        ensures
            match r {
                Some(h) => h.id == id && self.holes@.contains(*h),
                None => forall|i: int|
                    0 <= i < self.holes@.len() ==> #[trigger] self.holes@[i].id != id,
            },
    {
        let n = self.holes.len();
        let mut i: usize = 0;
        while i < n
            invariant
                n == self.holes@.len(),
                0 <= i <= n,
                forall|k: int| 0 <= k < i ==> #[trigger] self.holes@[k].id != id,
            decreases n - i,
        {
            if self.holes[i].id == id {
                return Some(&self.holes[i]);
            }
            i = i + 1;
        }
        None
    }

    /// Looks a placement up by id.
    pub fn placement_by_id(&self, id: u32) -> (r: Option<&Placement>)
        requires
            self.wf(),
        ensures
            match r {
                Some(p) => p.id == id && self.placements@.contains(*p),
                None => forall|i: int|
                    0 <= i < self.placements@.len() ==> #[trigger] self.placements@[i].id != id,
            },
    {
        let n = self.placements.len();
        let mut i: usize = 0;
        while i < n
            invariant
                n == self.placements@.len(),
                0 <= i <= n,
                forall|k: int| 0 <= k < i ==> #[trigger] self.placements@[k].id != id,
            decreases n - i,
        {
            if self.placements[i].id == id {
                return Some(&self.placements[i]);
            }
            i = i + 1;
        }
        None
    }

    /// Looks a role up by id.
    pub fn role_by_id(&self, id: u32) -> (r: Option<&PlacementRole>)
        requires
            self.wf(),
        ensures
            match r {
                Some(p) => p.id == id && self.placement_roles@.contains(*p),
                None => forall|i: int|
                    0 <= i < self.placement_roles@.len() ==> #[trigger] self.placement_roles@[i].id
                        != id,
            },
    {
        let n = self.placement_roles.len();
        let mut i: usize = 0;
        while i < n
            invariant
                n == self.placement_roles@.len(),
                0 <= i <= n,
                forall|k: int| 0 <= k < i ==> #[trigger] self.placement_roles@[k].id != id,
            decreases n - i,
        {
            if self.placement_roles[i].id == id {
                return Some(&self.placement_roles[i]);
            }
            i = i + 1;
        }
        None
    }

    /// Inserts a hole, replacing in place any entry with the same id and
    /// otherwise appending; the other tables are untouched.
    pub fn put_hole(&mut self, h: Hole)
        requires
            old(self).wf(),
        ensures
            final(self).wf(),
            final(self).placements@ == old(self).placements@,
            final(self).placement_roles@ == old(self).placement_roles@,
            final(self).climbs@ == old(self).climbs@,
            (exists|i: int| 0 <= i < old(self).holes@.len() && #[trigger] old(self).holes@[i].id
                == h.id) ==> exists|i: int|
                0 <= i < old(self).holes@.len() && #[trigger] old(self).holes@[i].id == h.id
                    && final(self).holes@ == old(self).holes@.update(i, h),
            (forall|i: int|
                0 <= i < old(self).holes@.len() ==> #[trigger] old(self).holes@[i].id != h.id)
                ==> final(self).holes@ == old(self).holes@.push(h),
    {
        let n = self.holes.len();
        let mut i: usize = 0;
        while i < n
            invariant
                *self == *old(self),
                old(self).wf(),
                n == self.holes@.len(),
                0 <= i <= n,
                forall|k: int| 0 <= k < i ==> #[trigger] self.holes@[k].id != h.id,
            decreases n - i,
        {
            if self.holes[i].id == h.id {
                let ghost oh = self.holes@;
                self.holes.set(i, h);
                proof {
                    assert(self.holes@ == oh.update(i as int, h));
                    assert forall|a: int, b: int|
                        0 <= a < b < self.holes@.len() implies #[trigger] self.holes@[a].id
                        != #[trigger] self.holes@[b].id by {
                        if a != i {
                            assert(self.holes@[a] == oh[a]);
                        }
                        if b != i {
                            assert(self.holes@[b] == oh[b]);
                        }
                    }
                }
                return ;
            }
            i = i + 1;
        }
        let ghost oh = self.holes@;
        self.holes.push(h);
        proof {
            assert forall|a: int, b: int|
                0 <= a < b < self.holes@.len() implies #[trigger] self.holes@[a].id
                != #[trigger] self.holes@[b].id by {
                if b < oh.len() {
                    assert(self.holes@[a] == oh[a] && self.holes@[b] == oh[b]);
                } else {
                    assert(self.holes@[a] == oh[a] && self.holes@[b] == h);
                }
            }
        }
    }

    /// Inserts a placement, replacing in place any entry with the same
    /// id and otherwise appending; the other tables are untouched.
    pub fn put_placement(&mut self, p: Placement)
        requires
            old(self).wf(),
        ensures
            final(self).wf(),
            final(self).holes@ == old(self).holes@,
            final(self).placement_roles@ == old(self).placement_roles@,
            final(self).climbs@ == old(self).climbs@,
            (exists|i: int|
                0 <= i < old(self).placements@.len() && #[trigger] old(self).placements@[i].id
                    == p.id) ==> exists|i: int|
                0 <= i < old(self).placements@.len() && #[trigger] old(self).placements@[i].id
                    == p.id && final(self).placements@ == old(self).placements@.update(i, p),
            (forall|i: int|
                0 <= i < old(self).placements@.len() ==> #[trigger] old(self).placements@[i].id
                    != p.id) ==> final(self).placements@ == old(self).placements@.push(p),
    {
        let n = self.placements.len();
        let mut i: usize = 0;
        while i < n
            invariant
                *self == *old(self),
                old(self).wf(),
                n == self.placements@.len(),
                0 <= i <= n,
                forall|k: int| 0 <= k < i ==> #[trigger] self.placements@[k].id != p.id,
            decreases n - i,
        {
            if self.placements[i].id == p.id {
                let ghost op = self.placements@;
                self.placements.set(i, p);
                proof {
                    assert(self.placements@ == op.update(i as int, p));
                    assert forall|a: int, b: int|
                        0 <= a < b < self.placements@.len() implies #[trigger] self.placements@[a].id
                        != #[trigger] self.placements@[b].id by {
                        if a != i {
                            assert(self.placements@[a] == op[a]);
                        }
                        if b != i {
                            assert(self.placements@[b] == op[b]);
                        }
                    }
                }
                return ;
            }
            i = i + 1;
        }
        let ghost op = self.placements@;
        self.placements.push(p);
        proof {
            assert forall|a: int, b: int|
                0 <= a < b < self.placements@.len() implies #[trigger] self.placements@[a].id
                != #[trigger] self.placements@[b].id by {
                if b < op.len() {
                    assert(self.placements@[a] == op[a] && self.placements@[b] == op[b]);
                } else {
                    assert(self.placements@[a] == op[a] && self.placements@[b] == p);
                }
            }
        }
    }

    /// Inserts a role, replacing in place any entry with the same id and
    /// otherwise appending; the other tables are untouched.
    pub fn put_role(&mut self, p: PlacementRole)
        requires
            old(self).wf(),
        ensures
            final(self).wf(),
            final(self).holes@ == old(self).holes@,
            final(self).placements@ == old(self).placements@,
            final(self).climbs@ == old(self).climbs@,
            (exists|i: int|
                0 <= i < old(self).placement_roles@.len()
                    && #[trigger] old(self).placement_roles@[i].id == p.id) ==> exists|i: int|
                0 <= i < old(self).placement_roles@.len()
                    && #[trigger] old(self).placement_roles@[i].id == p.id
                    && final(self).placement_roles@ == old(self).placement_roles@.update(i, p),
            (forall|i: int|
                0 <= i < old(self).placement_roles@.len()
                    ==> #[trigger] old(self).placement_roles@[i].id != p.id)
                ==> final(self).placement_roles@ == old(self).placement_roles@.push(p),
    {
        let n = self.placement_roles.len();
        let mut i: usize = 0;
        while i < n
            invariant
                *self == *old(self),
                old(self).wf(),
                n == self.placement_roles@.len(),
                0 <= i <= n,
                forall|k: int| 0 <= k < i ==> #[trigger] self.placement_roles@[k].id != p.id,
            decreases n - i,
        {
            if self.placement_roles[i].id == p.id {
                let ghost op = self.placement_roles@;
                self.placement_roles.set(i, p);
                proof {
                    assert(self.placement_roles@ == op.update(i as int, p));
                    assert forall|a: int, b: int|
                        0 <= a < b < self.placement_roles@.len()
                        implies #[trigger] self.placement_roles@[a].id
                        != #[trigger] self.placement_roles@[b].id by {
                        if a != i {
                            assert(self.placement_roles@[a] == op[a]);
                        }
                        if b != i {
                            assert(self.placement_roles@[b] == op[b]);
                        }
                    }
                }
                return ;
            }
            i = i + 1;
        }
        let ghost op = self.placement_roles@;
        self.placement_roles.push(p);
        proof {
            assert forall|a: int, b: int|
                0 <= a < b < self.placement_roles@.len()
                implies #[trigger] self.placement_roles@[a].id
                != #[trigger] self.placement_roles@[b].id by {
                if b < op.len() {
                    assert(self.placement_roles@[a] == op[a] && self.placement_roles@[b] == op[b]);
                } else {
                    assert(self.placement_roles@[a] == op[a] && self.placement_roles@[b] == p);
                }
            }
        }
    }

    /// Inserts a climb keyed by uuid, replacing in place any entry with
    /// the same uuid and otherwise appending; the other tables are
    /// untouched.
    pub fn put_climb(&mut self, c: Climb)
        requires
            old(self).wf(),
        ensures
            final(self).wf(),
            final(self).holes@ == old(self).holes@,
            final(self).placements@ == old(self).placements@,
            final(self).placement_roles@ == old(self).placement_roles@,
            (exists|i: int|
                0 <= i < old(self).climbs@.len() && #[trigger] old(self).climbs@[i].uuid@
                    == c.uuid@) ==> exists|i: int|
                0 <= i < old(self).climbs@.len() && #[trigger] old(self).climbs@[i].uuid@ == c.uuid@
                    && final(self).climbs@ == old(self).climbs@.update(i, c),
            (forall|i: int|
                0 <= i < old(self).climbs@.len() ==> #[trigger] old(self).climbs@[i].uuid@
                    != c.uuid@) ==> final(self).climbs@ == old(self).climbs@.push(c),
    {
        let n = self.climbs.len();
        let mut i: usize = 0;
        while i < n
            invariant
                *self == *old(self),
                old(self).wf(),
                n == self.climbs@.len(),
                0 <= i <= n,
                forall|k: int| 0 <= k < i ==> #[trigger] self.climbs@[k].uuid@ != c.uuid@,
            decreases n - i,
        {
            if self.climbs[i].uuid == c.uuid {
                let ghost oc = self.climbs@;
                self.climbs.set(i, c);
                proof {
                    assert(self.climbs@ == oc.update(i as int, c));
                    assert forall|a: int, b: int|
                        0 <= a < b < self.climbs@.len() implies #[trigger] self.climbs@[a].uuid@
                        != #[trigger] self.climbs@[b].uuid@ by {
                        if a != i {
                            assert(self.climbs@[a] == oc[a]);
                        }
                        if b != i {
                            assert(self.climbs@[b] == oc[b]);
                        }
                    }
                }
                return ;
            }
            i = i + 1;
        }
        let ghost oc = self.climbs@;
        self.climbs.push(c);
        proof {
            assert forall|a: int, b: int|
                0 <= a < b < self.climbs@.len() implies #[trigger] self.climbs@[a].uuid@
                != #[trigger] self.climbs@[b].uuid@ by {
                if b < oc.len() {
                    assert(self.climbs@[a] == oc[a] && self.climbs@[b] == oc[b]);
                } else {
                    assert(self.climbs@[a] == oc[a] && self.climbs@[b] == c);
                }
            }
        }
    }

    /// Takes one climb from a bulk update into the collection: climbs of
    /// other layouts are skipped, the rest inserted keyed by uuid.
    pub fn ingest_climb(&mut self, c: Climb)
        requires
            old(self).wf(),
        ensures
            final(self).wf(),
            final(self).holes@ == old(self).holes@,
            final(self).placements@ == old(self).placements@,
            final(self).placement_roles@ == old(self).placement_roles@,
            c.layout_id != ROUTE_LAYOUT_ID ==> final(self).climbs@ == old(self).climbs@,
            c.layout_id == ROUTE_LAYOUT_ID ==> ((exists|i: int|
                0 <= i < old(self).climbs@.len() && #[trigger] old(self).climbs@[i].uuid@
                    == c.uuid@) ==> exists|i: int|
                0 <= i < old(self).climbs@.len() && #[trigger] old(self).climbs@[i].uuid@ == c.uuid@
                    && final(self).climbs@ == old(self).climbs@.update(i, c)),
            c.layout_id == ROUTE_LAYOUT_ID ==> ((forall|i: int|
                0 <= i < old(self).climbs@.len() ==> #[trigger] old(self).climbs@[i].uuid@
                    != c.uuid@) ==> final(self).climbs@ == old(self).climbs@.push(c)),
    {
        if c.layout_id == ROUTE_LAYOUT_ID {
            self.put_climb(c);
        }
    }
}

/// The layout all routes of this board use.
pub const ROUTE_LAYOUT_ID: u32 = 1;

/// Position of the climb currently shown and edited.
#[derive(Clone, Copy, Debug, PartialEq, Eq, Structural)]
pub struct SelectedClimb(pub usize);

/// A request to move the selection.
#[derive(Clone, Copy, Debug, PartialEq, Eq, Structural)]
pub enum ChangeClimbEvent {
    Prev,
    Next,
    SelectByIndex(usize),
}

/// Moves the selection by one event: previous and next wrap around the
/// `count` climbs, and an index request selects directly. With no
/// climbs the selection stays put.
pub fn apply_change(selected: &mut SelectedClimb, event: &ChangeClimbEvent, count: usize)
    ensures
        count == 0 ==> *final(selected) == *old(selected),
        count > 0 ==> final(selected).0 == (match event {
            ChangeClimbEvent::Prev => if old(selected).0 == 0 || old(selected).0 >= count {
                (count - 1) as usize
            } else {
                (old(selected).0 - 1) as usize
            },
            ChangeClimbEvent::Next => if old(selected).0 + 1 >= count {
                0usize
            } else {
                (old(selected).0 + 1) as usize
            },
            ChangeClimbEvent::SelectByIndex(i) => *i,
        }),
{
    if count == 0 {
        return ;
    }
    match event {
        ChangeClimbEvent::Prev => {
            if selected.0 == 0 || selected.0 >= count {
                selected.0 = count - 1;
            } else {
                selected.0 = selected.0 - 1;
            }
        },
        ChangeClimbEvent::Next => {
            if selected.0 >= count - 1 {
                selected.0 = 0;
            } else {
                selected.0 = selected.0 + 1;
            }
        },
        ChangeClimbEvent::SelectByIndex(i) => {
            selected.0 = *i;
        },
    }
}

impl KilterData {
    /// The climb the selection points at, falling back to the first
    /// climb when the position is out of range; nothing with no climbs.
    pub fn selected_climb<'a>(&'a self, selected: &SelectedClimb) -> (r: Option<&'a Climb>)
        ensures
            match r {
                Some(c) => self.climbs@.len() > 0 && *c == (if selected.0 < self.climbs@.len() {
                    self.climbs@[selected.0 as int]
                } else {
                    self.climbs@[0]
                }),
                None => self.climbs@.len() == 0,
            },
    {
        if self.climbs.len() == 0 {
            None
        } else if selected.0 < self.climbs.len() {
            Some(&self.climbs[selected.0])
        } else {
            Some(&self.climbs[0])
        }
    }
}

} // verus!
