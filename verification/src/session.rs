//! Route authoring sessions: importing pasted notation and generated
//! climbs into the collection, creating blank climbs, and assembling
//! the values handed to outside collaborators (the publish payload, the
//! generation prompt, the public route address, and the resolved
//! geometry of one indicator).

use vstd::prelude::*;

use crate::authoring::{IndicatorSet, PlacementIndicator};
use crate::codec::{frames_rep, parse_frames_lenient, scan_pairs};
use crate::data::{Climb, KilterData, Placement, PlacementRole, SelectedClimb};
use crate::decimal::{dec_rep, push_decimal};
use crate::picker::{
    board_x, board_y, has_hole, hole_with_id, KilterSettings, COORD_LIMIT, SCALE_LIMIT,
};

verus! {

/// Relies on `uuid::Uuid::new_v4` and the simple format of the uuid
/// crate: a fresh random identifier rendered as 32 hexadecimal
/// characters. Nothing but its length is promised of the text.
#[verifier::external_body]
pub(crate) fn fresh_simple_id() -> (r: String)
    ensures
        r@.len() == 32,
{
    uuid::Uuid::new_v4().simple().to_string()
}

/// Relies on `uuid::Uuid::new_v4` and the hyphenated display format of
/// the uuid crate: a fresh random identifier rendered as 36 characters.
/// Nothing but its length is promised of the text.
#[verifier::external_body]
fn fresh_hyphenated_id() -> (r: String)
    ensures
        r@.len() == 36,
{
    uuid::Uuid::new_v4().to_string()
}

/// Insert-or-replace of one climb keyed by uuid, as a relation between
/// the collection before and after.
pub open spec fn upserted_climbs(olds: Seq<Climb>, news: Seq<Climb>, c: Climb) -> bool {
    if exists|i: int| 0 <= i < olds.len() && #[trigger] olds[i].uuid@ == c.uuid@ {
        exists|i: int|
            0 <= i < olds.len() && #[trigger] olds[i].uuid@ == c.uuid@ && news == olds.update(i, c)
    } else {
        news == olds.push(c)
    }
}

/// A climb decoded from the generation service's response.
#[derive(Debug)]
pub struct GeneratedClimb {
    pub uuid: String,
    pub angle: Option<u32>,
    pub description: String,
    pub difficulty: String,
    pub frames: String,
    pub name: String,
}

impl Clone for GeneratedClimb {
    fn clone(&self) -> (r: Self)
        ensures
            r == *self,
    {
        GeneratedClimb {
            uuid: self.uuid.clone(),
            angle: self.angle,
            description: self.description.clone(),
            difficulty: self.difficulty.clone(),
            frames: self.frames.clone(),
            name: self.name.clone(),
        }
    }
}

/// The climb a generated response entry turns into: its own uuid, name,
/// notation, description and angle, set by "API", everything else
/// blank.
pub open spec fn generated_fields(c: Climb, g: GeneratedClimb) -> bool {
    &&& c.uuid@ == g.uuid@
    &&& c.name@ == g.name@
    &&& c.description@ == g.description@
    &&& c.frames@ == g.frames@
    &&& c.angle == g.angle
    &&& c.setter_username@ == "API"@
    &&& c.hsm == 0
    &&& c.edge_left == 0
    &&& c.edge_right == 0
    &&& c.edge_bottom == 0
    &&& c.edge_top == 0
    &&& c.frames_count == 0
    &&& c.frames_pace == 0
    &&& c.setter_id == 0
    &&& c.layout_id == 0
    &&& c.is_draft == false
    &&& c.is_listed == false
}

/// The whole response folded into the collection, entry by entry.
pub open spec fn generated_rel(olds: Seq<Climb>, news: Seq<Climb>, list: Seq<GeneratedClimb>) -> bool
    decreases list.len(),
{
    if list.len() == 0 {
        news == olds
    } else {
        exists|c: Climb, mid: Seq<Climb>|
            generated_fields(c, list[0]) && #[trigger] upserted_climbs(olds, mid, c)
                && generated_rel(mid, news, list.drop_first())
    }
}

/// Folding one more entry onto a finished fold extends it.
proof fn lemma_generated_rel_snoc(
    olds: Seq<Climb>,
    mid: Seq<Climb>,
    news: Seq<Climb>,
    list: Seq<GeneratedClimb>,
    g: GeneratedClimb,
    c: Climb,
)
    requires
        generated_rel(olds, mid, list),
        generated_fields(c, g),
        upserted_climbs(mid, news, c),
    ensures
        generated_rel(olds, news, list.push(g)),
    decreases list.len(),
{
    if list.len() == 0 {
        assert(mid == olds);
        assert(list.push(g)[0] == g);
        assert(list.push(g).drop_first() =~= Seq::<GeneratedClimb>::empty());
        assert(generated_rel(news, news, list.push(g).drop_first()));
        assert(upserted_climbs(olds, news, c));
    } else {
        let (c0, m0) = choose|c0: Climb, m0: Seq<Climb>|
            generated_fields(c0, list[0]) && #[trigger] upserted_climbs(olds, m0, c0)
                && generated_rel(m0, mid, list.drop_first());
        lemma_generated_rel_snoc(m0, mid, news, list.drop_first(), g, c);
        assert(list.push(g)[0] == list[0]);
        assert(list.push(g).drop_first() =~= list.drop_first().push(g));
        assert(generated_rel(m0, news, list.push(g).drop_first()));
        assert(upserted_climbs(olds, m0, c0));
    }
}

impl KilterData {
    /// Takes a decoded generation response into the collection: each
    /// entry becomes a climb keyed by its uuid, and the selection moves
    /// to the first entry of the batch.
    pub fn import_generated(
        &mut self,
        selected: &mut SelectedClimb,
        list: &Vec<GeneratedClimb>,
    )
        requires
            old(self).wf(),
        ensures
            final(self).wf(),
            final(self).holes@ == old(self).holes@,
            final(self).placements@ == old(self).placements@,
            final(self).placement_roles@ == old(self).placement_roles@,
            generated_rel(old(self).climbs@, final(self).climbs@, list@),
            final(selected).0 == if list@.len() <= final(self).climbs@.len() {
                (final(self).climbs@.len() - list@.len()) as usize
            } else {
                0usize
            },
    {
        let n = list.len();
        let mut i: usize = 0;
        proof {
            assert(list@.subrange(0, 0) =~= Seq::<GeneratedClimb>::empty());
        }
        while i < n
            invariant
                self.wf(),
                self.holes@ == old(self).holes@,
                self.placements@ == old(self).placements@,
                self.placement_roles@ == old(self).placement_roles@,
                n == list@.len(),
                0 <= i <= n,
                generated_rel(old(self).climbs@, self.climbs@, list@.subrange(0, i as int)),
            decreases n - i,
        {
            let g = &list[i];
            let c = Climb {
                uuid: g.uuid.clone(),
                name: g.name.clone(),
                description: g.description.clone(),
                frames: g.frames.clone(),
                angle: g.angle,
                setter_username: string_user_api(),
                hsm: 0,
                edge_left: 0,
                edge_right: 0,
                edge_bottom: 0,
                edge_top: 0,
                frames_count: 0,
                frames_pace: 0,
                setter_id: 0,
                layout_id: 0,
                is_draft: false,
                is_listed: false,
            };
            let ghost cc = c;
            let ghost mid = self.climbs@;
            self.put_climb(c);
            proof {
                assert(generated_fields(cc, list@[i as int]));
                assert(upserted_climbs(mid, self.climbs@, cc));
                lemma_generated_rel_snoc(
                    old(self).climbs@,
                    mid,
                    self.climbs@,
                    list@.subrange(0, i as int),
                    list@[i as int],
                    cc,
                );
                assert(list@.subrange(0, i as int).push(list@[i as int]) =~= list@.subrange(
                    0,
                    i + 1,
                ));
            }
            i = i + 1;
        }
        proof {
            assert(list@.subrange(0, n as int) =~= list@);
        }
        let len = self.climbs.len();
        if n <= len {
            selected.0 = len - n;
        } else {
            selected.0 = 0;
        }
    }

    /// Creates a blank climb named "New Climb" under a fresh
    /// identifier, and selects it.
    pub fn new_climb(&mut self, selected: &mut SelectedClimb)
        requires
            old(self).wf(),
        ensures
            final(self).wf(),
            final(self).holes@ == old(self).holes@,
            final(self).placements@ == old(self).placements@,
            final(self).placement_roles@ == old(self).placement_roles@,
            exists|c: Climb|
                {
                    &&& c.uuid@.len() == 36
                    &&& c.name@ == "New Climb"@
                    &&& c.setter_username@ == "User"@
                    &&& c.description@ =~= Seq::<char>::empty()
                    &&& c.frames@ =~= Seq::<char>::empty()
                    &&& c.angle is None
                    &&& #[trigger] upserted_climbs(old(self).climbs@, final(self).climbs@, c)
                },
            final(self).climbs@.len() > 0,
            final(selected).0 == final(self).climbs@.len() - 1,
    {
        let id = fresh_hyphenated_id();
        let mut c = Climb::default();
        c.uuid = id;
        c.name = string_new_climb();
        c.setter_username = string_user();
        let ghost cc = c;
        let ghost olds = self.climbs@;
        self.put_climb(c);
        proof {
            assert(upserted_climbs(olds, self.climbs@, cc));
            if exists|i: int| 0 <= i < olds.len() && #[trigger] olds[i].uuid@ == cc.uuid@ {
                let i = choose|i: int| 0 <= i < olds.len() && #[trigger] olds[i].uuid@ == cc.uuid@;
                assert(self.climbs@.len() == olds.len());
            }
        }
        selected.0 = self.climbs.len() - 1;
    }

    /// The value sent to the publish service: the selected climb with
    /// its notation replaced by the current overlay's notation. Nothing
    /// when the selection does not point at a climb.
    pub fn publish_payload(&self, selected: &SelectedClimb, indicators: &IndicatorSet) -> (r:
        Option<Climb>)
        ensures
            r is Some <==> selected.0 < self.climbs@.len(),
            r matches Some(c) ==> {
                let base = self.climbs@[selected.0 as int];
                &&& c.uuid@ == base.uuid@
                &&& c.name@ == base.name@
                &&& c.description@ == base.description@
                &&& c.frames@ == frames_rep(indicators.pairs())
                &&& c.hsm == base.hsm
                &&& c.edge_left == base.edge_left
                &&& c.edge_right == base.edge_right
                &&& c.edge_bottom == base.edge_bottom
                &&& c.edge_top == base.edge_top
                &&& c.frames_count == base.frames_count
                &&& c.frames_pace == base.frames_pace
                &&& c.setter_id == base.setter_id
                &&& c.setter_username@ == base.setter_username@
                &&& c.layout_id == base.layout_id
                &&& c.is_draft == base.is_draft
                &&& c.is_listed == base.is_listed
                &&& c.angle == base.angle
            },
    {
        if selected.0 < self.climbs.len() {
            let mut c = self.climbs[selected.0].clone();
            c.frames = indicators.frames();
            Some(c)
        } else {
            None
        }
    }
}

/// A reference-data lookup that did not resolve while drawing or
/// cycling an indicator; recoverable, the operation is skipped.
#[derive(Clone, Copy, Debug, PartialEq, Eq, Structural)]
pub enum LookupMiss {
    /// No placement carries this id.
    Placement(u32),
    /// No role carries this id.
    Role(u32),
    /// No hole carries this id.
    Hole(u32),
}

/// Does some placement carry the given id?
pub open spec fn has_placement(ps: Seq<Placement>, id: u32) -> bool {
    exists|j: int| 0 <= j < ps.len() && #[trigger] ps[j].id == id
}

/// The placement with the given id (meaningful under table uniqueness
/// when one exists).
pub open spec fn placement_with_id(ps: Seq<Placement>, id: u32) -> Placement {
    ps[choose|j: int| 0 <= j < ps.len() && ps[j].id == id]
}

/// Does some role carry the given id?
pub open spec fn has_role(rs: Seq<PlacementRole>, id: u32) -> bool {
    exists|j: int| 0 <= j < rs.len() && #[trigger] rs[j].id == id
}

/// The role with the given id (meaningful under table uniqueness when
/// one exists).
pub open spec fn role_with_id(rs: Seq<PlacementRole>, id: u32) -> PlacementRole {
    rs[choose|j: int| 0 <= j < rs.len() && rs[j].id == id]
}

/// What the renderer needs for one indicator: its board-local position
/// in micro-units and the LED color of its role.
#[derive(Debug)]
pub struct ResolvedIndicator {
    pub x: i64,
    pub y: i64,
    pub led_color: String,
}

impl KilterData {
    /// Resolves an indicator to its board-local position and color,
    /// looking up its placement, then its role, then the placement's
    /// hole; the first table that lacks the id is reported as a miss.
    pub fn resolve_indicator(
        &self,
        s: KilterSettings,
        ind: &PlacementIndicator,
    ) -> (r: Result<ResolvedIndicator, LookupMiss>)
        requires
            self.wf(),
            -SCALE_LIMIT <= s.scale <= SCALE_LIMIT,
            -COORD_LIMIT <= s.offset_x <= COORD_LIMIT,
            -COORD_LIMIT <= s.offset_y <= COORD_LIMIT,
        ensures
            !has_placement(self.placements@, ind.placement_id) ==> r == Err::<
                ResolvedIndicator,
                LookupMiss,
            >(LookupMiss::Placement(ind.placement_id)),
            has_placement(self.placements@, ind.placement_id) && !has_role(
                self.placement_roles@,
                ind.role_id,
            ) ==> r == Err::<ResolvedIndicator, LookupMiss>(LookupMiss::Role(ind.role_id)),
            ({
                let hid = placement_with_id(self.placements@, ind.placement_id).hole_id;
                has_placement(self.placements@, ind.placement_id) && has_role(
                    self.placement_roles@,
                    ind.role_id,
                ) && !has_hole(self.holes@, hid) ==> r == Err::<ResolvedIndicator, LookupMiss>(
                    LookupMiss::Hole(hid),
                )
            }),
            ({
                let hid = placement_with_id(self.placements@, ind.placement_id).hole_id;
                let h = hole_with_id(self.holes@, hid);
                has_placement(self.placements@, ind.placement_id) && has_role(
                    self.placement_roles@,
                    ind.role_id,
                ) && has_hole(self.holes@, hid) ==> (r matches Ok(v) && v.x == board_x(h, s)
                    && v.y == board_y(h, s) && v.led_color@ == role_with_id(
                    self.placement_roles@,
                    ind.role_id,
                ).led_color@)
            }),
    {
        let placement = match self.placement_by_id(ind.placement_id) {
            Some(p) => *p,
            None => {
                return Err(LookupMiss::Placement(ind.placement_id));
            },
        };
        proof {
            let pid = ind.placement_id;
            let j = choose|j: int|
                0 <= j < self.placements@.len() && self.placements@[j] == placement;
            assert(self.placements@[j].id == pid);
            assert(has_placement(self.placements@, pid));
            let c = choose|k: int| 0 <= k < self.placements@.len() && self.placements@[k].id == pid;
            if c != j {
                assert(self.placements@[c].id != self.placements@[j].id);
            }
            assert(placement_with_id(self.placements@, pid) == placement);
        }
        let role = match self.role_by_id(ind.role_id) {
            Some(r) => r,
            None => {
                return Err(LookupMiss::Role(ind.role_id));
            },
        };
        proof {
            let rid = ind.role_id;
            let j = choose|j: int|
                0 <= j < self.placement_roles@.len() && self.placement_roles@[j] == *role;
            assert(self.placement_roles@[j].id == rid);
            assert(has_role(self.placement_roles@, rid));
            let c = choose|k: int|
                0 <= k < self.placement_roles@.len() && self.placement_roles@[k].id == rid;
            if c != j {
                assert(self.placement_roles@[c].id != self.placement_roles@[j].id);
            }
            assert(role_with_id(self.placement_roles@, rid) == *role);
        }
        let led_color = role.led_color.clone();
        let hole = match self.hole_by_id(placement.hole_id) {
            Some(h) => h,
            None => {
                return Err(LookupMiss::Hole(placement.hole_id));
            },
        };
        proof {
            let hid = placement.hole_id;
            let j = choose|j: int| 0 <= j < self.holes@.len() && self.holes@[j] == *hole;
            assert(self.holes@[j].id == hid);
            assert(has_hole(self.holes@, hid));
            let c = choose|k: int| 0 <= k < self.holes@.len() && self.holes@[k].id == hid;
            if c != j {
                assert(self.holes@[c].id != self.holes@[j].id);
            }
            assert(hole_with_id(self.holes@, hid) == *hole);
        }
        let hx = hole.x as i128;
        let hy = hole.y as i128;
        proof {
            assert(hx * (s.scale as i128) <= 2_147_483_648_000_000_000 && hx * (s.scale as i128)
                >= -2_147_483_648_000_000_000) by (nonlinear_arith)
                requires
                    -0x8000_0000 <= hx <= 0x8000_0000,
                    -1_000_000_000 <= s.scale <= 1_000_000_000,
            ;
            assert(hy * (s.scale as i128) <= 2_147_483_648_000_000_000 && hy * (s.scale as i128)
                >= -2_147_483_648_000_000_000) by (nonlinear_arith)
                requires
                    -0x8000_0000 <= hy <= 0x8000_0000,
                    -1_000_000_000 <= s.scale <= 1_000_000_000,
            ;
        }
        let px: i128 = hx * (s.scale as i128) + (s.offset_x as i128);
        let py: i128 = hy * (s.scale as i128) + (s.offset_y as i128);
        Ok(ResolvedIndicator { x: px as i64, y: py as i64, led_color })
    }
}

/// Rebuilds the overlay from a climb's notation, read leniently: the
/// longest run of whole tokens at the front of the text, later tokens
/// for the same placement replacing earlier ones.
pub fn show_climb(indicators: &mut IndicatorSet, c: &Climb)
    ensures
        final(indicators).wf(),
        final(indicators).view_items() == IndicatorSet::upserted(
            Seq::empty(),
            scan_pairs(c.frames@),
        ),
{
    let pairs = parse_frames_lenient(c.frames.as_str());
    indicators.rebuild(&pairs);
}

/// The text "User", the setter recorded on locally authored climbs.
pub(crate) fn string_user() -> (r: String)
    ensures
        r@ == "User"@,
{
    String::from_str("User")
}

/// The text "API", the setter recorded on generated climbs.
fn string_user_api() -> (r: String)
    ensures
        r@ == "API"@,
{
    String::from_str("API")
}

/// The text "New Climb", the stock name of a freshly created climb.
fn string_new_climb() -> (r: String)
    ensures
        r@ == "New Climb"@,
{
    String::from_str("New Climb")
}

/// The prompt handed to the generation service: the board angle and a
/// stock difficulty, followed by the overlay's notation.
pub fn generate_prompt(angle: u32, frames: &str) -> (r: String)
    ensures
        r@ == "a"@ + dec_rep(angle as nat) + "d20"@ + frames@,
{
    let mut out = String::from_str("a");
    push_decimal(&mut out, angle as u64);
    out.append("d20");
    out.append(frames);
    out
}

/// The public web address of a climb.
pub fn climb_url(c: &Climb) -> (r: String)
    ensures
        r@ == "https://kilterboardapp.com/climbs/"@ + c.uuid@,
{
    let out = String::from_str("https://kilterboardapp.com/climbs/");
    out.concat(c.uuid.as_str())
}

} // verus!
