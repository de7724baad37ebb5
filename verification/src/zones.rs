//! The zone hierarchy of the Core services: zones, and the tree that links
//! each zone to its parent and children and gives each zone its depth.
use vstd::prelude::*;

verus! {

/// A zone (World, a continent, a country, a region, ...).
#[allow(non_snake_case)]
#[derive(Debug)]
pub struct Zone {
    pub icon: String,
    pub name: String,
    pub parentId: Option<String>,
    pub timestamp: String,
    pub zoneId: String,
    pub depth: Option<u32>,
}

/// Clones an optional string, keeping its value.
fn clone_opt_string(s: &Option<String>) -> (r: Option<String>)
    ensures
        r == *s,
{
    match s {
        Some(v) => Some(v.clone()),
        None => None,
    }
}

impl Clone for Zone {
    fn clone(&self) -> (r: Self)
        ensures
            r == *self,
    {
        Zone {
            icon: self.icon.clone(),
            name: self.name.clone(),
            parentId: clone_opt_string(&self.parentId),
            timestamp: self.timestamp.clone(),
            zoneId: self.zoneId.clone(),
            depth: self.depth,
        }
    }
}

/// The zone with the given id that comes first in `zs`.
pub open spec fn first_zone(zs: Seq<Zone>, id: Seq<char>) -> Option<Zone>
    decreases zs.len(),
{
    if zs.len() == 0 {
        None
    } else if zs[0].zoneId@ == id {
        Some(zs[0])
    } else {
        first_zone(zs.drop_first(), id)
    }
}

/// The zone with the given id that comes last in `zs`.
pub open spec fn last_zone(zs: Seq<Zone>, id: Seq<char>) -> Option<Zone>
    decreases zs.len(),
{
    if zs.len() == 0 {
        None
    } else if zs.last().zoneId@ == id {
        Some(zs.last())
    } else {
        last_zone(zs.drop_last(), id)
    }
}

/// The zone ids listed under the given parent id, first come first.
pub open spec fn first_children(cs: Seq<(String, Vec<String>)>, parent: Seq<char>) -> Option<
    Seq<Seq<char>>,
>
    decreases cs.len(),
{
    if cs.len() == 0 {
        None
    } else if cs[0].0@ == parent {
        Some(cs[0].1@.map_values(|s: String| s@))
    } else {
        first_children(cs.drop_first(), parent)
    }
}

/// Whether a zone names the given id as its parent.
pub open spec fn has_parent(z: Zone, parent: Seq<char>) -> bool {
    z.parentId matches Some(p) && p@ == parent
}

/// The ids of the zones of `zs` whose parent is `parent`, in the order of `zs`.
pub open spec fn child_ids(zs: Seq<Zone>, parent: Seq<char>) -> Seq<Seq<char>>
    decreases zs.len(),
{
    if zs.len() == 0 {
        seq![]
    } else if has_parent(zs.last(), parent) {
        child_ids(zs.drop_last(), parent).push(zs.last().zoneId@)
    } else {
        child_ids(zs.drop_last(), parent)
    }
}

/// The children of a parent id in `zs`, if it has any.
pub open spec fn children_listed(zs: Seq<Zone>, parent: Seq<char>) -> Option<Seq<Seq<char>>> {
    if child_ids(zs, parent).len() > 0 {
        Some(child_ids(zs, parent))
    } else {
        None
    }
}

/// The tree of zones: every zone by its id, the children of every parent id,
/// and the id of the World zone.
#[derive(Debug)]
pub struct ZoneTree {
    pub world_id: String,
    /// One zone per zone id.
    pub zones: Vec<Zone>,
    /// One entry per parent id: the parent id and the ids of its children.
    pub children: Vec<(String, Vec<String>)>,
}

/// The index of the first zone of `zs` with the given id.
fn find_zone(zs: &Vec<Zone>, id: &String) -> (r: Option<usize>)
    ensures
        match r {
            Some(i) => i < zs@.len() && zs@[i as int].zoneId@ == id@ && forall|j: int|
                0 <= j < i ==> zs@[j].zoneId@ != id@,
            None => forall|j: int| 0 <= j < zs@.len() ==> zs@[j].zoneId@ != id@,
        },
{
    let mut i: usize = 0;
    while i < zs.len()
        invariant
            i <= zs@.len(),
            forall|j: int| 0 <= j < i ==> zs@[j].zoneId@ != id@,
        decreases zs@.len() - i,
    {
        if zs[i].zoneId == *id {
            return Some(i);
        }
        i = i + 1;
    }
    None
}

/// The index of the first children entry for the given parent id.
fn find_children(cs: &Vec<(String, Vec<String>)>, parent: &String) -> (r: Option<usize>)
    ensures
        match r {
            Some(i) => i < cs@.len() && cs@[i as int].0@ == parent@ && forall|j: int|
                0 <= j < i ==> cs@[j].0@ != parent@,
            None => forall|j: int| 0 <= j < cs@.len() ==> cs@[j].0@ != parent@,
        },
{
    let mut i: usize = 0;
    while i < cs.len()
        invariant
            i <= cs@.len(),
            forall|j: int| 0 <= j < i ==> cs@[j].0@ != parent@,
        decreases cs@.len() - i,
    {
        if cs[i].0 == *parent {
            return Some(i);
        }
        i = i + 1;
    }
    None
}

/// The first zone found by `find_zone` is the one `first_zone` names.
proof fn lemma_first_zone_at(zs: Seq<Zone>, id: Seq<char>, i: int)
    requires
        0 <= i < zs.len(),
        zs[i].zoneId@ == id,
        forall|j: int| 0 <= j < i ==> zs[j].zoneId@ != id,
    ensures
        first_zone(zs, id) == Some(zs[i]),
    decreases i,
{
    if i > 0 {
        lemma_first_zone_at(zs.drop_first(), id, i - 1);
    }
}

/// No zone with the id: `first_zone` finds none.
proof fn lemma_first_zone_none(zs: Seq<Zone>, id: Seq<char>)
    requires
        forall|j: int| 0 <= j < zs.len() ==> zs[j].zoneId@ != id,
    ensures
        first_zone(zs, id) is None,
    decreases zs.len(),
{
    if zs.len() > 0 {
        lemma_first_zone_none(zs.drop_first(), id);
    }
}

proof fn lemma_first_children_at(cs: Seq<(String, Vec<String>)>, parent: Seq<char>, i: int)
    requires
        0 <= i < cs.len(),
        cs[i].0@ == parent,
        forall|j: int| 0 <= j < i ==> cs[j].0@ != parent,
    ensures
        first_children(cs, parent) == Some(cs[i].1@.map_values(|s: String| s@)),
    decreases i,
{
    if i > 0 {
        lemma_first_children_at(cs.drop_first(), parent, i - 1);
    }
}

proof fn lemma_first_children_none(cs: Seq<(String, Vec<String>)>, parent: Seq<char>)
    requires
        forall|j: int| 0 <= j < cs.len() ==> cs[j].0@ != parent,
    ensures
        first_children(cs, parent) is None,
    decreases cs.len(),
{
    if cs.len() > 0 {
        lemma_first_children_none(cs.drop_first(), parent);
    }
}

impl ZoneTree {
    /// Each zone id occurs once in `zones`, each parent id once in `children`.
    pub open spec fn well_formed(&self) -> bool {
        unique_zone_ids(self.zones@) && unique_parent_ids(self.children@)
    }

    /// The zone that the tree holds for an id.
    pub open spec fn zone(&self, id: Seq<char>) -> Option<Zone> {
        first_zone(self.zones@, id)
    }

    /// The children ids that the tree holds for a parent id.
    pub open spec fn children_of(&self, parent: Seq<char>) -> Option<Seq<Seq<char>>> {
        first_children(self.children@, parent)
    }

    /// Looks up a zone by its id.
    pub fn get_zone(&self, zone_id: &str) -> (r: Option<&Zone>)
        ensures
            match r {
                Some(z) => self.zone(zone_id@) == Some(*z),
                None => self.zone(zone_id@) is None,
            },
    {
        let id = zone_id.to_owned();
        match find_zone(&self.zones, &id) {
            Some(i) => {
                proof {
                    lemma_first_zone_at(self.zones@, zone_id@, i as int);
                }
                Some(&self.zones[i])
            },
            None => {
                proof {
                    lemma_first_zone_none(self.zones@, zone_id@);
                }
                None
            },
        }
    }

    /// Looks up the ids of the children of a zone.
    pub fn get_children(&self, zone_id: &str) -> (r: Option<&Vec<String>>)
        ensures
            match r {
                Some(v) => self.children_of(zone_id@) == Some(v@.map_values(|s: String| s@)),
                None => self.children_of(zone_id@) is None,
            },
    {
        let id = zone_id.to_owned();
        match find_children(&self.children, &id) {
            Some(i) => {
                proof {
                    lemma_first_children_at(self.children@, zone_id@, i as int);
                }
                Some(&self.children[i].1)
            },
            None => {
                proof {
                    lemma_first_children_none(self.children@, zone_id@);
                }
                None
            },
        }
    }
}


/// The last zone of `zs` named World.
pub open spec fn last_world(zs: Seq<Zone>) -> Option<Zone>
    decreases zs.len(),
{
    if zs.len() == 0 {
        None
    } else if zs.last().name@ == "World"@ {
        Some(zs.last())
    } else {
        last_world(zs.drop_last())
    }
}

/// The zone ids of `zs` are pairwise distinct.
pub open spec fn unique_zone_ids(zs: Seq<Zone>) -> bool {
    forall|a: int, b: int|
        0 <= a < zs.len() && 0 <= b < zs.len() && a != b ==> zs[a].zoneId@ != zs[b].zoneId@
}

/// The parent ids of the children entries are pairwise distinct.
pub open spec fn unique_parent_ids(cs: Seq<(String, Vec<String>)>) -> bool {
    forall|a: int, b: int| 0 <= a < cs.len() && 0 <= b < cs.len() && a != b ==> cs[a].0@ != cs[b].0@
}

/// The zones of `built` are, id for id, the last zones of `zs`.
#[verifier::opaque]
pub open spec fn zones_built_from(built: Seq<Zone>, zs: Seq<Zone>) -> bool {
    &&& unique_zone_ids(built)
    &&& forall|j: int|
        #![trigger built[j]]
        0 <= j < built.len() ==> last_zone(zs, built[j].zoneId@) == Some(built[j])
    &&& forall|id: Seq<char>|
        #[trigger] last_zone(zs, id) is Some ==> exists|j: int|
            0 <= j < built.len() && built[j].zoneId@ == id
}

/// The children entries of `built` list, parent for parent, the children in `zs`.
#[verifier::opaque]
pub open spec fn children_built_from(built: Seq<(String, Vec<String>)>, zs: Seq<Zone>) -> bool {
    &&& unique_parent_ids(built)
    &&& forall|j: int|
        #![trigger built[j]]
        0 <= j < built.len() ==> built[j].1@.map_values(|s: String| s@) == child_ids(
            zs,
            built[j].0@,
        ) && child_ids(zs, built[j].0@).len() > 0
    &&& forall|p: Seq<char>|
        #[trigger] child_ids(zs, p).len() > 0 ==> exists|j: int|
            0 <= j < built.len() && built[j].0@ == p
}

proof fn lemma_take_step<A>(s: Seq<A>, i: int)
    requires
        0 <= i < s.len(),
    ensures
        s.take(i + 1).drop_last() == s.take(i),
        s.take(i + 1).last() == s[i],
{
    assert(s.take(i + 1).drop_last() =~= s.take(i));
}

/// Collects the zones, the children lists and the id of the World zone.
fn collect_zones(zones: &Vec<Zone>) -> (r: (Vec<Zone>, Vec<(String, Vec<String>)>, String))
    ensures
        zones_built_from(r.0@, zones@),
        r.0@.len() <= zones@.len(),
        children_built_from(r.1@, zones@),
        r.2@ == match last_world(zones@) {
            Some(w) => w.zoneId@,
            None => Seq::<char>::empty(),
        },
{
    reveal(zones_built_from);
    reveal(children_built_from);
    let mut z: Vec<Zone> = Vec::new();
    let mut c: Vec<(String, Vec<String>)> = Vec::new();
    let mut world_id = String::new();
    let mut i: usize = 0;
    proof {
        reveal_strlit("World");
        assert(zones@.take(0) =~= Seq::<Zone>::empty());
    }
    while i < zones.len()
        invariant
            i <= zones@.len(),
            zones_built_from(z@, zones@.take(i as int)),
            children_built_from(c@, zones@.take(i as int)),
            z@.len() <= i,
            world_id@ == match last_world(zones@.take(i as int)) {
                Some(w) => w.zoneId@,
                None => Seq::<char>::empty(),
            },
        decreases zones@.len() - i,
    {
        let ghost prev = zones@.take(i as int);
        let ghost next = zones@.take(i + 1);
        proof {
            reveal(zones_built_from);
            reveal(children_built_from);
            lemma_take_step(zones@, i as int);
        }
        let zone = &zones[i];
        let stored = zone.clone();
        if zone.name == "World".to_owned() {
            world_id = zone.zoneId.clone();
        }
        let ghost z_prev = z@;
        match find_zone(&z, &zone.zoneId) {
            Some(j) => {
                z.set(j, stored);
                proof {
                    assert forall|id: Seq<char>| #[trigger] last_zone(next, id) is Some implies exists|k: int|
                        0 <= k < z@.len() && z@[k].zoneId@ == id by {
                        if id != zone.zoneId@ {
                            assert(last_zone(prev, id) is Some);
                            let k = choose|k: int| 0 <= k < z_prev.len() && z_prev[k].zoneId@ == id;
                            assert(z@[k].zoneId@ == id);
                        } else {
                            assert(z@[j as int].zoneId@ == id);
                        }
                    }
                }
            },
            None => {
                z.push(stored);
                proof {
                    assert forall|id: Seq<char>| #[trigger] last_zone(next, id) is Some implies exists|k: int|
                        0 <= k < z@.len() && z@[k].zoneId@ == id by {
                        if id != zone.zoneId@ {
                            assert(last_zone(prev, id) is Some);
                            let k = choose|k: int| 0 <= k < z_prev.len() && z_prev[k].zoneId@ == id;
                            assert(z@[k].zoneId@ == id);
                        } else {
                            assert(z@[z_prev.len() as int].zoneId@ == id);
                        }
                    }
                }
            },
        }
        let ghost c_prev = c@;
        match &zone.parentId {
            Some(parent) => {
                match find_children(&c, parent) {
                    Some(j) => {
                        let ghost old_list = c@[j as int].1@;
                        c[j].1.push(zone.zoneId.clone());
                        proof {
                            assert(c@[j as int].1@ == old_list.push(zone.zoneId));
                            assert(c@[j as int].1@.map_values(|s: String| s@) =~= old_list.map_values(
                                |s: String| s@,
                            ).push(zone.zoneId@));
                            assert forall|k: int| #![trigger c@[k]] 0 <= k < c@.len() implies c@[k].1@.map_values(
                                |s: String| s@,
                            ) == child_ids(next, c@[k].0@) && child_ids(next, c@[k].0@).len() > 0 by {
                                if k != j {
                                    assert(c@[k] == c_prev[k]);
                                }
                            }
                            assert forall|p: Seq<char>| #[trigger] child_ids(next, p).len() > 0 implies exists|k: int|
                                0 <= k < c@.len() && c@[k].0@ == p by {
                                if p != parent@ {
                                    assert(child_ids(prev, p).len() > 0);
                                    let k = choose|k: int| 0 <= k < c_prev.len() && c_prev[k].0@ == p;
                                    assert(c@[k].0@ == p);
                                } else {
                                    assert(c@[j as int].0@ == p);
                                }
                            }
                        }
                    },
                    None => {
                        let mut list: Vec<String> = Vec::new();
                        list.push(zone.zoneId.clone());
                        c.push((parent.clone(), list));
                        proof {
                            let last = c_prev.len() as int;
                            assert(child_ids(prev, parent@) =~= Seq::<Seq<char>>::empty()) by {
                                if child_ids(prev, parent@).len() > 0 {
                                    let k = choose|k: int| 0 <= k < c_prev.len() && c_prev[k].0@ == parent@;
                                }
                            }
                            assert(c@[last].1@.map_values(|s: String| s@) =~= seq![zone.zoneId@]);
                            assert forall|k: int| #![trigger c@[k]] 0 <= k < c@.len() implies c@[k].1@.map_values(
                                |s: String| s@,
                            ) == child_ids(next, c@[k].0@) && child_ids(next, c@[k].0@).len() > 0 by {
                                if k != last {
                                    assert(c@[k] == c_prev[k]);
                                }
                            }
                            assert forall|p: Seq<char>| #[trigger] child_ids(next, p).len() > 0 implies exists|k: int|
                                0 <= k < c@.len() && c@[k].0@ == p by {
                                if p != parent@ {
                                    assert(child_ids(prev, p).len() > 0);
                                    let k = choose|k: int| 0 <= k < c_prev.len() && c_prev[k].0@ == p;
                                    assert(c@[k].0@ == p);
                                } else {
                                    assert(c@[last].0@ == p);
                                }
                            }
                        }
                    },
                }
            },
            None => {
                proof {
                    assert forall|p: Seq<char>| #[trigger] child_ids(next, p) == child_ids(prev, p) by {}
                }
            },
        }
        i = i + 1;
    }
    proof {
        assert(zones@.take(zones@.len() as int) =~= zones@);
    }
    (z, c, world_id)
}

/// Occurrence `i` of `zs` is the zone `x` and names a parent.
pub open spec fn edge_into(zs: Seq<Zone>, i: int, x: Seq<char>) -> bool {
    0 <= i < zs.len() && zs[i].zoneId@ == x && zs[i].parentId is Some
}

/// `x` can be reached from the zone `w` by following at most `k` parent-to-child links.
pub open spec fn reaches(zs: Seq<Zone>, w: Seq<char>, k: nat, x: Seq<char>) -> bool
    decreases k,
{
    x == w || (k > 0 && exists|i: int|
        #[trigger] edge_into(zs, i, x) && reaches(zs, w, (k - 1) as nat, zs[i].parentId->0@))
}

/// `x` lies exactly `d` links below `w`: the shortest path from `w` to `x` has `d` links.
pub open spec fn at_distance(zs: Seq<Zone>, w: Seq<char>, d: nat, x: Seq<char>) -> bool {
    reaches(zs, w, d, x) && (d == 0 || !reaches(zs, w, (d - 1) as nat, x))
}

/// `x` can be reached from `w` at all.
pub open spec fn reachable(zs: Seq<Zone>, w: Seq<char>, x: Seq<char>) -> bool {
    exists|k: nat| reaches(zs, w, k, x)
}

/// The zone `w` lies below itself: some occurrence of it names a parent that can be reached
/// from `w`.
pub open spec fn below_itself(zs: Seq<Zone>, w: Seq<char>) -> bool {
    exists|k: nat, i: int| #[trigger] edge_into(zs, i, w) && #[trigger] reaches(zs, w, k, zs[i].parentId->0@)
}

/// Some listing of `w` names `w` itself as its parent.
pub open spec fn own_parent(zs: Seq<Zone>, w: Seq<char>) -> bool {
    exists|i: int| #[trigger] edge_into(zs, i, w) && zs[i].parentId->0@ == w
}

/// Some listing of `w` names a parent within `l - 1` links below `w`: the links lead from `w`
/// back to it within `l` links.
pub open spec fn back_within(zs: Seq<Zone>, w: Seq<char>, l: nat) -> bool {
    l > 0 && exists|i: int|
        #[trigger] edge_into(zs, i, w) && reaches(zs, w, (l - 1) as nat, zs[i].parentId->0@)
}

/// The shortest way from `w` back to itself has `l` links.
pub open spec fn loop_length(zs: Seq<Zone>, w: Seq<char>, l: nat) -> bool {
    back_within(zs, w, l) && !back_within(zs, w, (l - 1) as nat)
}

proof fn lemma_reaches_mono(zs: Seq<Zone>, w: Seq<char>, k: nat, m: nat, x: Seq<char>)
    requires
        k <= m,
        reaches(zs, w, k, x),
    ensures
        reaches(zs, w, m, x),
    decreases k,
{
    if x != w {
        let i = choose|i: int|
            #[trigger] edge_into(zs, i, x) && reaches(zs, w, (k - 1) as nat, zs[i].parentId->0@);
        lemma_reaches_mono(zs, w, (k - 1) as nat, (m - 1) as nat, zs[i].parentId->0@);
        assert(edge_into(zs, i, x));
    }
}

proof fn lemma_at_distance_unique(zs: Seq<Zone>, w: Seq<char>, d1: nat, d2: nat, x: Seq<char>)
    requires
        at_distance(zs, w, d1, x),
        at_distance(zs, w, d2, x),
    ensures
        d1 == d2,
{
    if d1 < d2 {
        lemma_reaches_mono(zs, w, d1, (d2 - 1) as nat, x);
    } else if d2 < d1 {
        lemma_reaches_mono(zs, w, d2, (d1 - 1) as nat, x);
    }
}

/// A child of a zone reached within `k` links is reached within `k + 1` links.
proof fn lemma_reaches_child(zs: Seq<Zone>, w: Seq<char>, k: nat, i: int)
    requires
        0 <= i < zs.len(),
        zs[i].parentId is Some,
        reaches(zs, w, k, zs[i].parentId->0@),
    ensures
        reaches(zs, w, k + 1, zs[i].zoneId@),
{
    assert(edge_into(zs, i, zs[i].zoneId@));
}

proof fn lemma_child_ids_contains(zs: Seq<Zone>, p: Seq<char>, x: Seq<char>)
    ensures
        child_ids(zs, p).contains(x) <==> exists|i: int|
            0 <= i < zs.len() && zs[i].zoneId@ == x && has_parent(zs[i], p),
    decreases zs.len(),
{
    if zs.len() > 0 {
        let prev = zs.drop_last();
        lemma_child_ids_contains(prev, p, x);
        if child_ids(zs, p).contains(x) {
            if has_parent(zs.last(), p) && zs.last().zoneId@ == x {
                assert(zs[zs.len() - 1].zoneId@ == x);
            } else {
                if has_parent(zs.last(), p) {
                    let k = choose|k: int|
                        0 <= k < child_ids(zs, p).len() && child_ids(zs, p)[k] == x;
                    assert(child_ids(prev, p)[k] == x);
                }
                assert(child_ids(prev, p).contains(x));
                let i = choose|i: int| 0 <= i < prev.len() && prev[i].zoneId@ == x && has_parent(prev[i], p);
                assert(zs[i] == prev[i]);
            }
        }
        if exists|i: int| 0 <= i < zs.len() && zs[i].zoneId@ == x && has_parent(zs[i], p) {
            let i = choose|i: int| 0 <= i < zs.len() && zs[i].zoneId@ == x && has_parent(zs[i], p);
            if i == zs.len() - 1 {
                assert(child_ids(zs, p).last() == x);
            } else {
                assert(prev[i] == zs[i]);
                assert(child_ids(prev, p).contains(x));
                let k = choose|k: int| 0 <= k < child_ids(prev, p).len() && child_ids(prev, p)[k] == x;
                if has_parent(zs.last(), p) {
                    assert(child_ids(zs, p)[k] == x);
                }
            }
        }
    }
}

proof fn lemma_last_zone_some(zs: Seq<Zone>, i: int)
    requires
        0 <= i < zs.len(),
    ensures
        last_zone(zs, zs[i].zoneId@) is Some,
    decreases zs.len(),
{
    if i < zs.len() - 1 && zs.last().zoneId@ != zs[i].zoneId@ {
        assert(zs.drop_last()[i] == zs[i]);
        lemma_last_zone_some(zs.drop_last(), i);
    }
}

/// With pairwise distinct ids, the zone at an index is the one `last_zone` finds.
proof fn lemma_last_zone_unique(zs: Seq<Zone>, i: int)
    requires
        unique_zone_ids(zs),
        0 <= i < zs.len(),
    ensures
        last_zone(zs, zs[i].zoneId@) == Some(zs[i]),
    decreases zs.len(),
{
    if i < zs.len() - 1 {
        assert(zs.last().zoneId@ != zs[i].zoneId@);
        let p = zs.drop_last();
        assert(unique_zone_ids(p)) by {
            assert forall|a: int, b: int| 0 <= a < p.len() && 0 <= b < p.len() && a != b implies p[a].zoneId@ != p[b].zoneId@ by {
                assert(p[a] == zs[a] && p[b] == zs[b]);
            }
        }
        assert(p[i] == zs[i]);
        lemma_last_zone_unique(p, i);
    }
}

/// With pairwise distinct zone ids, every child that the zones list under a parent is a
/// zone that names that parent, and a parent with an entry has at least one child.
pub proof fn lemma_listed_children_name_parent(zs: Seq<Zone>, p: Seq<char>, c: Seq<char>)
    requires
        unique_zone_ids(zs),
        children_listed(zs, p) is Some,
        children_listed(zs, p)->0.contains(c),
    ensures
        children_listed(zs, p)->0.len() > 0,
        last_zone(zs, c) is Some,
        has_parent(last_zone(zs, c)->0, p),
{
    lemma_child_ids_contains(zs, p, c);
    let i = choose|i: int| 0 <= i < zs.len() && zs[i].zoneId@ == c && has_parent(zs[i], p);
    lemma_last_zone_unique(zs, i);
}

proof fn lemma_last_world_in(zs: Seq<Zone>)
    requires
        last_world(zs) is Some,
    ensures
        exists|i: int| 0 <= i < zs.len() && zs[i] == last_world(zs)->0,
    decreases zs.len(),
{
    if zs.last().name@ != "World"@ {
        lemma_last_world_in(zs.drop_last());
        let i = choose|i: int|
            0 <= i < zs.drop_last().len() && zs.drop_last()[i] == last_world(zs.drop_last())->0;
        assert(zs[i] == zs.drop_last()[i]);
    } else {
        assert(zs[zs.len() - 1] == zs.last());
    }
}

/// With pairwise distinct ids, the zone at an index is the one `first_zone` finds.
proof fn lemma_first_zone_unique(zs: Seq<Zone>, j: int)
    requires
        unique_zone_ids(zs),
        0 <= j < zs.len(),
    ensures
        first_zone(zs, zs[j].zoneId@) == Some(zs[j]),
{
    lemma_first_zone_at(zs, zs[j].zoneId@, j);
}

proof fn lemma_first_children_unique(cs: Seq<(String, Vec<String>)>, j: int)
    requires
        unique_parent_ids(cs),
        0 <= j < cs.len(),
    ensures
        first_children(cs, cs[j].0@) == Some(cs[j].1@.map_values(|s: String| s@)),
{
    lemma_first_children_at(cs, cs[j].0@, j);
}

/// The number of entries not yet marked.
pub open spec fn unmarked(v: Seq<bool>) -> nat
    decreases v.len(),
{
    if v.len() == 0 {
        0
    } else {
        unmarked(v.drop_last()) + if v.last() {
            0nat
        } else {
            1nat
        }
    }
}

proof fn lemma_unmarked_bound(v: Seq<bool>)
    ensures
        unmarked(v) <= v.len(),
    decreases v.len(),
{
    if v.len() > 0 {
        lemma_unmarked_bound(v.drop_last());
    }
}

proof fn lemma_unmarked_mark(v: Seq<bool>, k: int)
    requires
        0 <= k < v.len(),
        !v[k],
    ensures
        unmarked(v.update(k, true)) + 1 == unmarked(v),
    decreases v.len(),
{
    let u = v.update(k, true);
    if k == v.len() - 1 {
        assert(u.drop_last() =~= v.drop_last());
    } else {
        assert(u.drop_last() =~= v.drop_last().update(k, true));
        lemma_unmarked_mark(v.drop_last(), k);
    }
}


/// The zones of `a` are those of `b` but for their depths.
pub open spec fn same_but_depth(a: Seq<Zone>, b: Seq<Zone>) -> bool {
    a.len() == b.len() && forall|j: int|
        0 <= j < a.len() ==> #[trigger] a[j] == Zone { depth: a[j].depth, ..b[j] }
}

/// What the depth assignment starts from and never changes.
spec fn bfs_frame(zs: Seq<Zone>, z0: Seq<Zone>, c: Seq<(String, Vec<String>)>, world: int) -> bool {
    &&& zones_cover(z0, zs)
    &&& unique_zone_ids(z0)
    &&& z0.len() <= zs.len()
    &&& zs.len() < u32::MAX
    &&& children_built_from(c, zs)
    &&& 0 <= world < z0.len()
    &&& z0[world].depth is Some
    &&& root_depth(z0, world) + zs.len() < u32::MAX
}

/// The depth of the zone at index `world`, which the walk counts from.
spec fn root_depth(z0: Seq<Zone>, world: int) -> nat {
    z0[world].depth->0 as nat
}

/// Every zone id of `zs` is the id of some zone of `built`.
#[verifier::opaque]
spec fn zones_cover(built: Seq<Zone>, zs: Seq<Zone>) -> bool {
    forall|i: int| 0 <= i < zs.len() ==> exists|j: int| 0 <= j < built.len() && built[j].zoneId@ == #[trigger] zs[i].zoneId@
}

proof fn lemma_zones_cover(built: Seq<Zone>, zs: Seq<Zone>)
    requires
        zones_built_from(built, zs),
    ensures
        zones_cover(built, zs),
{
    reveal(zones_built_from);
    reveal(zones_cover);
    assert forall|i: int| 0 <= i < zs.len() implies exists|j: int| 0 <= j < built.len() && built[j].zoneId@ == #[trigger] zs[i].zoneId@ by {
        lemma_last_zone_some(zs, i);
    }
}

proof fn lemma_zone_present(built: Seq<Zone>, zs: Seq<Zone>, i: int) -> (j: int)
    requires
        zones_cover(built, zs),
        0 <= i < zs.len(),
    ensures
        0 <= j < built.len(),
        built[j].zoneId@ == zs[i].zoneId@,
{
    reveal(zones_cover);
    choose|j: int| 0 <= j < built.len() && built[j].zoneId@ == zs[i].zoneId@
}

proof fn lemma_children_entry(c: Seq<(String, Vec<String>)>, zs: Seq<Zone>, j: int)
    requires
        children_built_from(c, zs),
        0 <= j < c.len(),
    ensures
        c[j].1@.map_values(|s: String| s@) == child_ids(zs, c[j].0@),
{
    reveal(children_built_from);
}

proof fn lemma_children_absent(c: Seq<(String, Vec<String>)>, zs: Seq<Zone>, p: Seq<char>)
    requires
        children_built_from(c, zs),
        forall|j: int| 0 <= j < c.len() ==> c[j].0@ != p,
    ensures
        child_ids(zs, p).len() == 0,
{
    reveal(children_built_from);
    if child_ids(zs, p).len() > 0 {
        let j = choose|j: int| 0 <= j < c.len() && c[j].0@ == p;
    }
}

/// Some marked zone of `z0` has the id `x`.
#[verifier::opaque]
spec fn id_marked(z0: Seq<Zone>, marks: Seq<bool>, x: Seq<char>) -> bool {
    exists|j: int| 0 <= j < z0.len() && z0[j].zoneId@ == x && marks[j]
}

proof fn lemma_id_marked_intro(z0: Seq<Zone>, marks: Seq<bool>, j: int)
    requires
        0 <= j < z0.len(),
        marks[j],
    ensures
        id_marked(z0, marks, z0[j].zoneId@),
{
    reveal(id_marked);
}

proof fn lemma_id_marked_witness(z0: Seq<Zone>, marks: Seq<bool>, x: Seq<char>) -> (j: int)
    requires
        id_marked(z0, marks, x),
    ensures
        0 <= j < z0.len(),
        z0[j].zoneId@ == x,
        marks[j],
{
    reveal(id_marked);
    choose|j: int| 0 <= j < z0.len() && z0[j].zoneId@ == x && marks[j]
}

proof fn lemma_id_marked_grow(z0: Seq<Zone>, m1: Seq<bool>, m2: Seq<bool>, x: Seq<char>)
    requires
        id_marked(z0, m1, x),
        m1.len() == z0.len(),
        m2.len() == z0.len(),
        forall|j: int| 0 <= j < z0.len() && #[trigger] m1[j] ==> m2[j],
    ensures
        id_marked(z0, m2, x),
{
    let j = lemma_id_marked_witness(z0, m1, x);
    lemma_id_marked_intro(z0, m2, j);
}

/// Some zone of `edge` has the id `x`.
#[verifier::opaque]
spec fn in_edge(z0: Seq<Zone>, edge: Seq<usize>, x: Seq<char>) -> bool {
    exists|a: int| 0 <= a < edge.len() && edge[a] < z0.len() && z0[edge[a] as int].zoneId@ == x
}

proof fn lemma_in_edge_intro(z0: Seq<Zone>, edge: Seq<usize>, a: int)
    requires
        0 <= a < edge.len(),
        edge[a] < z0.len(),
    ensures
        in_edge(z0, edge, z0[edge[a] as int].zoneId@),
{
    reveal(in_edge);
}

proof fn lemma_in_edge_witness(z0: Seq<Zone>, edge: Seq<usize>, x: Seq<char>) -> (a: int)
    requires
        in_edge(z0, edge, x),
    ensures
        0 <= a < edge.len(),
        edge[a] < z0.len(),
        z0[edge[a] as int].zoneId@ == x,
{
    reveal(in_edge);
    choose|a: int| 0 <= a < edge.len() && edge[a] < z0.len() && z0[edge[a] as int].zoneId@ == x
}

/// The index `j` occurs in `fresh`.
#[verifier::opaque]
spec fn listed(fresh: Seq<usize>, j: int) -> bool {
    exists|m: int| 0 <= m < fresh.len() && fresh[m] == j
}

proof fn lemma_listed_push(fresh: Seq<usize>, k: usize, j: int)
    requires
        listed(fresh, j) || j == k,
    ensures
        listed(fresh.push(k), j),
{
    reveal(listed);
    if j == k {
        assert(fresh.push(k)[fresh.len() as int] == k);
    } else {
        let m = choose|m: int| 0 <= m < fresh.len() && fresh[m] == j;
        assert(fresh.push(k)[m] == j);
    }
}

proof fn lemma_listed_witness(fresh: Seq<usize>, j: int) -> (m: int)
    requires
        listed(fresh, j),
    ensures
        0 <= m < fresh.len(),
        fresh[m] == j,
{
    reveal(listed);
    choose|m: int| 0 <= m < fresh.len() && fresh[m] == j
}

/// Facts on the marked zones that hold at every step.
spec fn marked_facts(zs: Seq<Zone>, z0: Seq<Zone>, world: int, lvl: nat, z: Seq<Zone>, marks: Seq<bool>) -> bool {
    let n = z0.len();
    let w = z0[world].zoneId@;
    &&& same_but_depth(z, z0)
    &&& marks.len() == n
    &&& forall|j: int| 0 <= j < n && #[trigger] marks[j] ==> reaches(zs, w, lvl, z0[j].zoneId@)
    &&& forall|j: int|
        0 <= j < n && #[trigger] marks[j] ==> z[j].depth is Some && z[j].depth->0 + unmarked(marks) <= n
            + root_depth(z0, world)
    &&& z[world].depth is Some && z[world].depth->0 + unmarked(marks) <= n + root_depth(z0, world)
}

/// The state at the start of level `level`: the zones within `level` links are marked (but
/// for the World zone, marked once the links lead back to it), `edge` holds the zones exactly
/// `level` links below the World zone.
#[verifier::opaque]
spec fn level_start(
    zs: Seq<Zone>,
    z0: Seq<Zone>,
    world: int,
    level: nat,
    z: Seq<Zone>,
    marks: Seq<bool>,
    edge: Seq<usize>,
) -> bool {
    let n = z0.len();
    let w = z0[world].zoneId@;
    let rd = root_depth(z0, world);
    let ns = !own_parent(zs, w);
    &&& marked_facts(zs, z0, world, level, z, marks)
    &&& forall|j: int| 0 <= j < n && !#[trigger] marks[j] ==> z[j].depth == z0[j].depth
    &&& forall|a: int|
        0 <= a < edge.len() ==> #[trigger] edge[a] < n && (marks[edge[a] as int] || edge[a] == world)
            && reaches(zs, w, level, z0[edge[a] as int].zoneId@)
    &&& forall|x: Seq<char>| #[trigger] reaches(zs, w, level, x) && x != w ==> id_marked(z0, marks, x)
    &&& forall|x: Seq<char>| #[trigger] at_distance(zs, w, level, x) ==> in_edge(z0, edge, x)
    &&& marks[world] <==> back_within(zs, w, level)
    &&& ns ==> forall|j: int|
        0 <= j < n && #[trigger] marks[j] && j != world ==> (z[j].depth matches Some(d) && d >= rd
            && at_distance(zs, w, (d - rd) as nat, z0[j].zoneId@))
    &&& ns ==> forall|a: int|
        0 <= a < edge.len() && #[trigger] edge[a] != world ==> at_distance(zs, w, level, z0[edge[a] as int].zoneId@)
            && (z[edge[a] as int].depth matches Some(d) && d == rd + level)
    &&& ns && marks[world] ==> (z[world].depth matches Some(d) && d >= rd && loop_length(
        zs,
        w,
        (d - rd) as nat,
    ))
}

/// The state within level `level`, from the level's start state (`zstart`, `v0`).
#[verifier::opaque]
spec fn level_mid(
    zs: Seq<Zone>,
    z0: Seq<Zone>,
    world: int,
    level: nat,
    v0: Seq<bool>,
    zstart: Seq<Zone>,
    edge: Seq<usize>,
    z: Seq<Zone>,
    marks: Seq<bool>,
    fresh: Seq<usize>,
) -> bool {
    let n = z0.len();
    let w = z0[world].zoneId@;
    let rd = root_depth(z0, world);
    let ns = !own_parent(zs, w);
    &&& level_start(zs, z0, world, level, zstart, v0, edge)
    &&& marked_facts(zs, z0, world, level + 1, z, marks)
    &&& v0.len() == n
    &&& forall|j: int| 0 <= j < n && #[trigger] v0[j] ==> marks[j] && z[j] == zstart[j]
    &&& forall|j: int| 0 <= j < n && !#[trigger] marks[j] ==> z[j] == zstart[j]
    &&& unmarked(marks) + fresh.len() == unmarked(v0)
    &&& forall|m: int|
        0 <= m < fresh.len() ==> #[trigger] fresh[m] < n && marks[fresh[m] as int] && !v0[fresh[m] as int]
    &&& forall|j: int| 0 <= j < n && #[trigger] marks[j] && !v0[j] ==> listed(fresh, j)
    &&& marks[world] && !v0[world] ==> back_within(zs, w, level + 1)
    &&& ns ==> forall|j: int|
        0 <= j < n && #[trigger] marks[j] && !v0[j] && j != world ==> (z[j].depth matches Some(d) && d
            == rd + level + 1 && at_distance(zs, w, level + 1, z0[j].zoneId@))
    &&& ns && marks[world] && !v0[world] ==> (z[world].depth matches Some(d) && d == rd + level + 1)
}

/// Marks the zone at index `k`, a child of the zone at index `e` of the current level, and
/// gives it the depth of its parent plus one, unless it is already marked.
fn visit(
    z: &mut Vec<Zone>,
    marks: &mut Vec<bool>,
    fresh: &mut Vec<usize>,
    e: usize,
    k: usize,
    Ghost(zs): Ghost<Seq<Zone>>,
    Ghost(z0): Ghost<Seq<Zone>>,
    Ghost(c): Ghost<Seq<(String, Vec<String>)>>,
    Ghost(world): Ghost<int>,
    Ghost(level): Ghost<nat>,
    Ghost(v0): Ghost<Seq<bool>>,
    Ghost(zstart): Ghost<Seq<Zone>>,
    Ghost(edge): Ghost<Seq<usize>>,
    Ghost(a): Ghost<int>,
    Ghost(i): Ghost<int>,
)
    requires
        bfs_frame(zs, z0, c, world),
        level_mid(zs, z0, world, level, v0, zstart, edge, old(z)@, old(marks)@, old(fresh)@),
        0 <= a < edge.len(),
        e == edge[a],
        k < z0.len(),
        0 <= i < zs.len(),
        zs[i].zoneId@ == z0[k as int].zoneId@,
        has_parent(zs[i], z0[e as int].zoneId@),
    ensures
        level_mid(zs, z0, world, level, v0, zstart, edge, final(z)@, final(marks)@, final(fresh)@),
        final(marks)@.len() == old(marks)@.len(),
        final(marks)@.len() == z0.len(),
        final(marks)@[k as int],
        forall|j: int| 0 <= j < old(marks)@.len() && #[trigger] old(marks)@[j] ==> final(marks)@[j],
{
    proof {
        lemma_mid_lengths(zs, z0, c, world, level, v0, zstart, edge, z@, marks@, fresh@);
    }
    if !marks[k] {
        proof {
            lemma_visit_parent_depth(zs, z0, c, world, level, v0, zstart, edge, z@, marks@, fresh@, a, k);
        }
        let ghost zb = z@;
        let ghost mb = marks@;
        let ghost fb = fresh@;
        marks.set(k, true);
        fresh.push(k);
        let pd = z[e].depth.unwrap();
        z[k].depth = Some(pd + 1);
        proof {
            assert(z@ == zb.update(k as int, Zone { depth: Some((zb[e as int].depth->0 + 1) as u32), ..zb[k as int] }));
            lemma_visit_step(zs, z0, c, world, level, v0, zstart, edge, a, i, k, zb, mb, fb, z@, marks@, fresh@);
        }
    }
}

proof fn lemma_mid_lengths(
    zs: Seq<Zone>,
    z0: Seq<Zone>,
    c: Seq<(String, Vec<String>)>,
    world: int,
    level: nat,
    v0: Seq<bool>,
    zstart: Seq<Zone>,
    edge: Seq<usize>,
    z: Seq<Zone>,
    marks: Seq<bool>,
    fresh: Seq<usize>,
)
    requires
        level_mid(zs, z0, world, level, v0, zstart, edge, z, marks, fresh),
    ensures
        marks.len() == z0.len(),
        z.len() == z0.len(),
        v0.len() == z0.len(),
        forall|j: int| 0 <= j < z.len() ==> #[trigger] z[j].zoneId == z0[j].zoneId,
        forall|a: int| 0 <= a < edge.len() ==> #[trigger] edge[a] < z0.len(),
{
    reveal(level_mid);
    reveal(level_start);
    assert forall|j: int| 0 <= j < z.len() implies #[trigger] z[j].zoneId == z0[j].zoneId by {
        assert(z[j] == Zone { depth: z[j].depth, ..z0[j] });
    }
}

/// The parent of a zone about to be marked has a depth, and one more fits in a `u32`.
proof fn lemma_visit_parent_depth(
    zs: Seq<Zone>,
    z0: Seq<Zone>,
    c: Seq<(String, Vec<String>)>,
    world: int,
    level: nat,
    v0: Seq<bool>,
    zstart: Seq<Zone>,
    edge: Seq<usize>,
    z: Seq<Zone>,
    marks: Seq<bool>,
    fresh: Seq<usize>,
    a: int,
    k: usize,
)
    requires
        bfs_frame(zs, z0, c, world),
        level_mid(zs, z0, world, level, v0, zstart, edge, z, marks, fresh),
        0 <= a < edge.len(),
        k < z0.len(),
        !marks[k as int],
    ensures
        edge[a] < z.len(),
        z[edge[a] as int].depth is Some,
        z[edge[a] as int].depth->0 + 1 <= u32::MAX,
{
    reveal(level_mid);
    reveal(level_start);
    let e = edge[a];
    let n = z0.len();
    assert(e < n);
    lemma_unmarked_mark(marks, k as int);
    assert(marked_facts(zs, z0, world, level + 1, z, marks));
    if v0[e as int] {
        assert(marks[e as int]);
    }
}

/// Marking a child of a zone of the current level keeps the state of the level.
#[verifier::rlimit(50)]
proof fn lemma_visit_step(
    zs: Seq<Zone>,
    z0: Seq<Zone>,
    c: Seq<(String, Vec<String>)>,
    world: int,
    level: nat,
    v0: Seq<bool>,
    zstart: Seq<Zone>,
    edge: Seq<usize>,
    a: int,
    i: int,
    k: usize,
    z: Seq<Zone>,
    marks: Seq<bool>,
    fresh: Seq<usize>,
    z2: Seq<Zone>,
    marks2: Seq<bool>,
    fresh2: Seq<usize>,
)
    requires
        bfs_frame(zs, z0, c, world),
        level_mid(zs, z0, world, level, v0, zstart, edge, z, marks, fresh),
        0 <= a < edge.len(),
        k < z0.len(),
        !marks[k as int],
        0 <= i < zs.len(),
        zs[i].zoneId@ == z0[k as int].zoneId@,
        has_parent(zs[i], z0[edge[a] as int].zoneId@),
        marks2 == marks.update(k as int, true),
        fresh2 == fresh.push(k),
        edge[a] < z.len(),
        z[edge[a] as int].depth is Some,
        z[edge[a] as int].depth->0 + 1 <= u32::MAX,
        z2 == z.update(k as int, Zone { depth: Some((z[edge[a] as int].depth->0 + 1) as u32), ..z[k as int] }),
    ensures
        level_mid(zs, z0, world, level, v0, zstart, edge, z2, marks2, fresh2),
{
    reveal(level_mid);
    reveal(level_start);
    let n = z0.len();
    let w = z0[world].zoneId@;
    let x = z0[k as int].zoneId@;
    let e = edge[a];
    let pd = z[e as int].depth->0;
    lemma_unmarked_mark(marks, k as int);
    lemma_reaches_child(zs, w, level, i);
    assert(e < n);
    assert(v0[e as int] || e == world);
    assert(z[k as int] == zstart[k as int]);
    assert(same_but_depth(z2, z0)) by {
        assert forall|j: int| 0 <= j < z2.len() implies #[trigger] z2[j] == Zone { depth: z2[j].depth, ..z0[j] } by {
            if j != k {
                assert(z2[j] == z[j]);
                assert(z[j] == Zone { depth: z[j].depth, ..z0[j] });
            } else {
                assert(z[j] == Zone { depth: z[j].depth, ..z0[j] });
            }
        }
    }
    assert forall|j: int|
        0 <= j < n && #[trigger] marks2[j] implies z2[j].depth is Some && z2[j].depth->0
            + unmarked(marks2) <= n + root_depth(z0, world) by {
        if j != k {
            assert(z2[j] == z[j]);
            assert(marks[j]);
        }
    }
    if k != world {
        assert(z2[world] == z[world]);
    }
    assert forall|j: int| 0 <= j < n && #[trigger] marks2[j] implies reaches(zs, w, level + 1, z0[j].zoneId@) by {
        if j != k {
            assert(marks[j]);
        }
    }
    assert(marked_facts(zs, z0, world, level + 1, z2, marks2));
    assert forall|j: int| 0 <= j < n && #[trigger] v0[j] implies marks2[j] && z2[j] == zstart[j] by {
        assert(marks[j]);
        assert(j != k);
    }
    assert forall|j: int| 0 <= j < n && !#[trigger] marks2[j] implies z2[j] == zstart[j] by {
        assert(j != k);
        assert(!marks[j]);
    }
    assert forall|m: int| 0 <= m < fresh2.len() implies #[trigger] fresh2[m] < n && marks2[fresh2[m] as int]
        && !v0[fresh2[m] as int] by {
        if m < fresh.len() {
            assert(fresh2[m] == fresh[m]);
        } else {
            assert(!v0[k as int]);
        }
    }
    assert forall|j: int| 0 <= j < n && #[trigger] marks2[j] && !v0[j] implies listed(fresh2, j) by {
        if j != k {
            assert(marks[j]);
        }
        lemma_listed_push(fresh, k, j);
    }
    let rd = root_depth(z0, world);
    assert(reaches(zs, w, level, zs[i].parentId->0@));
    if k == world {
        assert(edge_into(zs, i, w));
        assert(back_within(zs, w, level + 1));
    } else {
        assert(marks2[world] == marks[world]);
        assert(z2[world] == z[world]);
    }
    if !own_parent(zs, w) {
        if e == world {
            if level > 0 {
                assert(x != w) by {
                    if x == w {
                        assert(edge_into(zs, i, w));
                    }
                }
                lemma_reaches_child(zs, w, 0, i);
                lemma_reaches_mono(zs, w, 1, level, x);
                let j = lemma_id_marked_witness(z0, v0, x);
                assert(j == k);
            }
            assert(!marks[world]) by {
                if marks[world] && !v0[world] {
                    let i2 = choose|i2: int|
                        #[trigger] edge_into(zs, i2, w) && reaches(zs, w, level, zs[i2].parentId->0@);
                    assert(edge_into(zs, i2, w) && zs[i2].parentId->0@ == w);
                }
            }
            assert(z[world] == zstart[world]);
            assert(pd == rd + level);
        } else {
            assert(v0[e as int]);
            assert(z[e as int] == zstart[e as int]);
            assert(pd == rd + level);
        }
        if k != world {
            assert(x != w);
            assert(!reaches(zs, w, level, x)) by {
                if reaches(zs, w, level, x) {
                    let j = lemma_id_marked_witness(z0, v0, x);
                    assert(j == k);
                }
            }
            assert(at_distance(zs, w, level + 1, x));
        }
        assert forall|j: int| 0 <= j < n && #[trigger] marks2[j] && !v0[j] && j != world implies (z2[j].depth matches Some(d)
            && d == rd + level + 1 && at_distance(zs, w, level + 1, z0[j].zoneId@)) by {
            if j != k {
                assert(marks[j]);
                assert(z2[j] == z[j]);
            }
        }
    }
}

/// Marks the children of the zone at index `e` of the current level.
fn visit_children(
    z: &mut Vec<Zone>,
    marks: &mut Vec<bool>,
    fresh: &mut Vec<usize>,
    e: usize,
    c: &Vec<(String, Vec<String>)>,
    Ghost(zs): Ghost<Seq<Zone>>,
    Ghost(z0): Ghost<Seq<Zone>>,
    Ghost(world): Ghost<int>,
    Ghost(level): Ghost<nat>,
    Ghost(v0): Ghost<Seq<bool>>,
    Ghost(zstart): Ghost<Seq<Zone>>,
    Ghost(edge): Ghost<Seq<usize>>,
    Ghost(a): Ghost<int>,
)
    requires
        bfs_frame(zs, z0, c@, world),
        level_mid(zs, z0, world, level, v0, zstart, edge, old(z)@, old(marks)@, old(fresh)@),
        0 <= a < edge.len(),
        e == edge[a],
    ensures
        level_mid(zs, z0, world, level, v0, zstart, edge, final(z)@, final(marks)@, final(fresh)@),
        final(marks)@.len() == old(marks)@.len(),
        forall|j: int| 0 <= j < old(marks)@.len() && #[trigger] old(marks)@[j] ==> final(marks)@[j],
        forall|x: Seq<char>|
            #[trigger] child_ids(zs, z0[e as int].zoneId@).contains(x) ==> id_marked(z0, final(marks)@, x),
{
    proof {
        lemma_mid_lengths(zs, z0, c@, world, level, v0, zstart, edge, z@, marks@, fresh@);
    }
    let ghost pid = z0[e as int].zoneId@;
    assert(z@[e as int].zoneId@ == pid);
    let ghost m_in = marks@;
    match find_children(c, &z[e].zoneId) {
        Some(ci) => {
            let list: &Vec<String> = &c[ci].1;
            proof {
                lemma_children_entry(c@, zs, ci as int);
            }
            assert(list@.map_values(|s: String| s@) == child_ids(zs, pid));
            let mut b: usize = 0;
            while b < list.len()
                invariant
                    bfs_frame(zs, z0, c@, world),
                    level_mid(zs, z0, world, level, v0, zstart, edge, z@, marks@, fresh@),
                    0 <= a < edge.len(),
                    e == edge[a],
                    pid == z0[e as int].zoneId@,
                    list@.map_values(|s: String| s@) == child_ids(zs, pid),
                    b <= list@.len(),
                    marks@.len() == m_in.len(),
                    marks@.len() == z0.len(),
                    forall|j: int| 0 <= j < m_in.len() && #[trigger] m_in[j] ==> marks@[j],
                    forall|bb: int| 0 <= bb < b ==> id_marked(z0, marks@, #[trigger] list@[bb]@),
                decreases list@.len() - b,
            {
                let ghost x = list@[b as int]@;
                let ghost i: int;
                proof {
                    lemma_mid_lengths(zs, z0, c@, world, level, v0, zstart, edge, z@, marks@, fresh@);
                    assert(child_ids(zs, pid)[b as int] == x);
                    assert(child_ids(zs, pid).contains(x));
                    lemma_child_ids_contains(zs, pid, x);
                    i = choose|i: int| 0 <= i < zs.len() && zs[i].zoneId@ == x && has_parent(zs[i], pid);
                    let j = lemma_zone_present(z0, zs, i);
                    assert(z@[j].zoneId@ == x);
                }
                let k = find_zone(z, &list[b]).unwrap();
                let ghost mb = marks@;
                visit(
                    z,
                    marks,
                    fresh,
                    e,
                    k,
                    Ghost(zs),
                    Ghost(z0),
                    Ghost(c@),
                    Ghost(world),
                    Ghost(level),
                    Ghost(v0),
                    Ghost(zstart),
                    Ghost(edge),
                    Ghost(a),
                    Ghost(i),
                );
                proof {
                    assert forall|bb: int| 0 <= bb < b + 1 implies id_marked(z0, marks@, #[trigger] list@[bb]@) by {
                        if bb < b {
                            lemma_id_marked_grow(z0, mb, marks@, list@[bb]@);
                        } else {
                            lemma_id_marked_intro(z0, marks@, k as int);
                        }
                    }
                }
                b = b + 1;
            }
            proof {
                assert forall|x: Seq<char>| #[trigger] child_ids(zs, pid).contains(x) implies id_marked(
                    z0,
                    marks@,
                    x,
                ) by {
                    let bb = choose|bb: int| 0 <= bb < child_ids(zs, pid).len() && child_ids(zs, pid)[bb] == x;
                    assert(list@[bb]@ == x);
                }
            }
        },
        None => {
            proof {
                lemma_children_absent(c@, zs, pid);
            }
        },
    }
}

/// The start state of a level is a state within it, with nothing marked yet in the level.
proof fn lemma_level_begin(
    zs: Seq<Zone>,
    z0: Seq<Zone>,
    world: int,
    level: nat,
    z: Seq<Zone>,
    marks: Seq<bool>,
    edge: Seq<usize>,
)
    requires
        0 <= world < z0.len(),
        level_start(zs, z0, world, level, z, marks, edge),
    ensures
        level_mid(zs, z0, world, level, marks, z, edge, z, marks, Seq::empty()),
{
    reveal(level_mid);
    reveal(level_start);
    let w = z0[world].zoneId@;
    assert forall|j: int| 0 <= j < z0.len() && #[trigger] marks[j] implies reaches(zs, w, level + 1, z0[j].zoneId@) by {
        lemma_reaches_mono(zs, w, level, level + 1, z0[j].zoneId@);
    }
}

/// Once all zones of a level have had their children marked, the next level starts.
#[verifier::rlimit(50)]
proof fn lemma_level_end(
    zs: Seq<Zone>,
    z0: Seq<Zone>,
    c: Seq<(String, Vec<String>)>,
    world: int,
    level: nat,
    v0: Seq<bool>,
    zstart: Seq<Zone>,
    edge: Seq<usize>,
    z: Seq<Zone>,
    marks: Seq<bool>,
    fresh: Seq<usize>,
)
    requires
        bfs_frame(zs, z0, c, world),
        level_mid(zs, z0, world, level, v0, zstart, edge, z, marks, fresh),
        forall|bb: int, x: Seq<char>|
            0 <= bb < edge.len() && #[trigger] child_ids(zs, z0[edge[bb] as int].zoneId@).contains(x)
                ==> id_marked(z0, marks, x),
    ensures
        level_start(zs, z0, world, level + 1, z, marks, fresh),
{
    reveal(level_mid);
    reveal(level_start);
    let n = z0.len();
    let w = z0[world].zoneId@;
    assert forall|x: Seq<char>| #[trigger] reaches(zs, w, level + 1, x) && x != w implies id_marked(
        z0,
        marks,
        x,
    ) by {
        if reaches(zs, w, level, x) {
            lemma_id_marked_grow(z0, v0, marks, x);
        } else {
            let i = choose|i: int|
                #[trigger] edge_into(zs, i, x) && reaches(zs, w, level, zs[i].parentId->0@);
            let p = zs[i].parentId->0@;
            if level > 0 && reaches(zs, w, (level - 1) as nat, p) {
                lemma_reaches_child(zs, w, (level - 1) as nat, i);
            }
            assert(at_distance(zs, w, level, p));
            let a = lemma_in_edge_witness(z0, edge, p);
            lemma_child_ids_contains(zs, p, x);
            assert(has_parent(zs[i], p));
            assert(child_ids(zs, z0[edge[a] as int].zoneId@).contains(x));
        }
    }
    assert forall|x: Seq<char>| #[trigger] at_distance(zs, w, level + 1, x) implies in_edge(z0, fresh, x) by {
        assert(x != w);
        assert(reaches(zs, w, level + 1, x));
        let j = lemma_id_marked_witness(z0, marks, x);
        assert(!v0[j]);
        let m = lemma_listed_witness(fresh, j);
        lemma_in_edge_intro(z0, fresh, m);
    }
    assert forall|j: int| 0 <= j < n && !#[trigger] marks[j] implies z[j].depth == z0[j].depth by {
        assert(!v0[j]);
    }
    if back_within(zs, w, level + 1) && !v0[world] {
        let i = choose|i: int|
            #[trigger] edge_into(zs, i, w) && reaches(zs, w, level, zs[i].parentId->0@);
        let p = zs[i].parentId->0@;
        if level > 0 && reaches(zs, w, (level - 1) as nat, p) {
            assert(back_within(zs, w, level));
        }
        assert(at_distance(zs, w, level, p));
        let a = lemma_in_edge_witness(z0, edge, p);
        lemma_child_ids_contains(zs, p, w);
        assert(has_parent(zs[i], p));
        assert(child_ids(zs, z0[edge[a] as int].zoneId@).contains(w));
        let j = lemma_id_marked_witness(z0, marks, w);
        assert(j == world);
    }
    if v0[world] {
        let i = choose|i: int|
            #[trigger] edge_into(zs, i, w) && reaches(zs, w, (level - 1) as nat, zs[i].parentId->0@);
        lemma_reaches_mono(zs, w, (level - 1) as nat, level, zs[i].parentId->0@);
        assert(back_within(zs, w, level + 1));
    }
    if !own_parent(zs, w) {
        let rd = root_depth(z0, world);
        assert forall|j: int| 0 <= j < n && #[trigger] marks[j] && j != world implies (z[j].depth matches Some(d)
            && d >= rd && at_distance(zs, w, (d - rd) as nat, z0[j].zoneId@)) by {
            if v0[j] {
                assert(z[j] == zstart[j]);
            }
        }
        assert forall|a: int| 0 <= a < fresh.len() && #[trigger] fresh[a] != world implies at_distance(
            zs,
            w,
            level + 1,
            z0[fresh[a] as int].zoneId@,
        ) && (z[fresh[a] as int].depth matches Some(d) && d == rd + level + 1) by {
            assert(marks[fresh[a] as int] && !v0[fresh[a] as int]);
        }
        if marks[world] {
            if v0[world] {
                assert(z[world] == zstart[world]);
            } else {
                assert(!back_within(zs, w, level));
                assert(loop_length(zs, w, level + 1));
            }
        }
    }
}

/// With no zone exactly `level` links below the World zone, nothing lies further below.
proof fn lemma_closed(zs: Seq<Zone>, w: Seq<char>, level: nat, m: nat, x: Seq<char>)
    requires
        forall|y: Seq<char>| !#[trigger] at_distance(zs, w, level, y),
        reaches(zs, w, m, x),
    ensures
        reaches(zs, w, level, x),
    decreases m,
{
    if m <= level {
        lemma_reaches_mono(zs, w, m, level, x);
    } else if x != w {
        let i = choose|i: int|
            #[trigger] edge_into(zs, i, x) && reaches(zs, w, (m - 1) as nat, zs[i].parentId->0@);
        let p = zs[i].parentId->0@;
        lemma_closed(zs, w, level, (m - 1) as nat, p);
        assert(!at_distance(zs, w, level, p));
        if level == 0 {
            assert(at_distance(zs, w, 0, w));
        } else {
            lemma_reaches_child(zs, w, (level - 1) as nat, i);
        }
    }
}

/// Marks the children of every zone of the current level; returns the zones marked now.
fn visit_level(
    z: &mut Vec<Zone>,
    marks: &mut Vec<bool>,
    edge: &Vec<usize>,
    c: &Vec<(String, Vec<String>)>,
    world: usize,
    Ghost(zs): Ghost<Seq<Zone>>,
    Ghost(z0): Ghost<Seq<Zone>>,
    Ghost(level): Ghost<nat>,
) -> (fresh: Vec<usize>)
    requires
        bfs_frame(zs, z0, c@, world as int),
        level_start(zs, z0, world as int, level, old(z)@, old(marks)@, edge@),
        edge@.len() > 0,
    ensures
        level_start(zs, z0, world as int, level + 1, final(z)@, final(marks)@, fresh@),
        unmarked(final(marks)@) + fresh@.len() == unmarked(old(marks)@),
{
    let ghost v0 = marks@;
    let ghost zstart = z@;
    let mut fresh: Vec<usize> = Vec::new();
    proof {
        lemma_level_begin(zs, z0, world as int, level, z@, marks@, edge@);
    }
    let mut a: usize = 0;
    while a < edge.len()
        invariant
            bfs_frame(zs, z0, c@, world as int),
            level_mid(zs, z0, world as int, level, v0, zstart, edge@, z@, marks@, fresh@),
            a <= edge@.len(),
            forall|bb: int, x: Seq<char>|
                0 <= bb < a && #[trigger] child_ids(zs, z0[edge@[bb] as int].zoneId@).contains(x)
                    ==> id_marked(z0, marks@, x),
        decreases edge@.len() - a,
    {
        let ghost mb = marks@;
        proof {
            lemma_mid_lengths(zs, z0, c@, world as int, level, v0, zstart, edge@, z@, marks@, fresh@);
        }
        visit_children(
            z,
            marks,
            &mut fresh,
            edge[a],
            c,
            Ghost(zs),
            Ghost(z0),
            Ghost(world as int),
            Ghost(level),
            Ghost(v0),
            Ghost(zstart),
            Ghost(edge@),
            Ghost(a as int),
        );
        proof {
            assert forall|bb: int, x: Seq<char>|
                0 <= bb < a + 1 && #[trigger] child_ids(zs, z0[edge@[bb] as int].zoneId@).contains(x)
                    implies id_marked(z0, marks@, x) by {
                if bb < a {
                    lemma_id_marked_grow(z0, mb, marks@, x);
                }
            }
        }
        a = a + 1;
    }
    proof {
        lemma_level_end(zs, z0, c@, world as int, level, v0, zstart, edge@, z@, marks@, fresh@);
        reveal(level_mid);
    }
    fresh
}

/// The first level: only the World zone, nothing marked.
proof fn lemma_first_level(zs: Seq<Zone>, z0: Seq<Zone>, c: Seq<(String, Vec<String>)>, world: int, marks: Seq<bool>, edge: Seq<usize>)
    requires
        bfs_frame(zs, z0, c, world),
        marks.len() == z0.len(),
        forall|j: int| 0 <= j < marks.len() ==> !marks[j],
        edge == seq![world as usize],
    ensures
        level_start(zs, z0, world, 0, z0, marks, edge),
{
    reveal(level_start);
    lemma_unmarked_all_false(marks);
    let w = z0[world].zoneId@;
    assert(same_but_depth(z0, z0));
    assert forall|x: Seq<char>| #[trigger] at_distance(zs, w, 0, x) implies in_edge(z0, edge, x) by {
        lemma_in_edge_intro(z0, edge, 0);
    }
}

/// When no zone is left on the current level, the marks and depths are final.
#[verifier::rlimit(50)]
proof fn lemma_depths_final(zs: Seq<Zone>, z0: Seq<Zone>, c: Seq<(String, Vec<String>)>, world: int, level: nat, z: Seq<Zone>, marks: Seq<bool>, edge: Seq<usize>)
    requires
        bfs_frame(zs, z0, c, world),
        level_start(zs, z0, world, level, z, marks, edge),
        edge.len() == 0,
    ensures
        same_but_depth(z, z0),
        forall|j: int|
            #![trigger z[j]]
            0 <= j < z.len() && !reachable(zs, z0[world].zoneId@, z[j].zoneId@)
                ==> z[j].depth == z0[j].depth,
        forall|j: int, k: nat|
            #![trigger reaches(zs, z0[world].zoneId@, k, z[j].zoneId@)]
            0 <= j < z.len() && reaches(zs, z0[world].zoneId@, k, z[j].zoneId@)
                ==> z[j].depth is Some,
        !below_itself(zs, z0[world].zoneId@) ==> forall|j: int, d: nat|
            #![trigger at_distance(zs, z0[world].zoneId@, d, z[j].zoneId@)]
            0 <= j < z.len() && at_distance(zs, z0[world].zoneId@, d, z[j].zoneId@)
                ==> z[j].depth == Some((root_depth(z0, world) + d) as u32),
        !own_parent(zs, z0[world].zoneId@) ==> forall|j: int, d: nat|
            #![trigger at_distance(zs, z0[world].zoneId@, d, z[j].zoneId@)]
            0 <= j < z.len() && j != world && at_distance(zs, z0[world].zoneId@, d, z[j].zoneId@)
                ==> z[j].depth == Some((root_depth(z0, world) + d) as u32),
        !own_parent(zs, z0[world].zoneId@) && below_itself(zs, z0[world].zoneId@) ==> (z[world].depth matches Some(
            dw,
        ) && dw >= root_depth(z0, world) && loop_length(zs, z0[world].zoneId@, (dw - root_depth(z0, world)) as nat)),
{
    reveal(level_start);
    let w = z0[world].zoneId@;
    assert forall|y: Seq<char>| !#[trigger] at_distance(zs, w, level, y) by {
        if at_distance(zs, w, level, y) {
            let a = lemma_in_edge_witness(z0, edge, y);
        }
    }
    assert forall|j: int| 0 <= j < z.len() implies #[trigger] z[j].zoneId@ == z0[j].zoneId@ by {
        assert(z[j] == Zone { depth: z[j].depth, ..z0[j] });
    }
    assert forall|j: int, k: nat|
        0 <= j < z.len() && #[trigger] reaches(zs, w, k, z[j].zoneId@) implies z[j].depth is Some by {
        assert(z[j].zoneId@ == z0[j].zoneId@);
        lemma_closed(zs, w, level, k, z0[j].zoneId@);
        if j != world {
            let i = lemma_id_marked_witness(z0, marks, z0[j].zoneId@);
            assert(i == j);
        }
    }
    assert forall|j: int|
        #![trigger z[j]]
        0 <= j < z.len() && !reachable(zs, w, z[j].zoneId@) implies z[j].depth == z0[j].depth by {
        assert(z[j].zoneId@ == z0[j].zoneId@);
        if marks[j] {
            assert(reaches(zs, w, level, z0[j].zoneId@));
        }
        if j == world {
            assert(reaches(zs, w, 0, w));
        }
    }
    if !below_itself(zs, w) {
        assert forall|j: int, d: nat|
            0 <= j < z.len() && #[trigger] at_distance(zs, w, d, z[j].zoneId@) implies z[j].depth == Some(
            (root_depth(z0, world) + d) as u32,
        ) by {
            assert(z[j].zoneId@ == z0[j].zoneId@);
            if j == world {
                if d > 0 {
                    assert(reaches(zs, w, (d - 1) as nat, w));
                }
            } else {
                lemma_closed(zs, w, level, d, z0[j].zoneId@);
                let i = lemma_id_marked_witness(z0, marks, z0[j].zoneId@);
                assert(i == j);
                let dd = z[j].depth->0;
                lemma_at_distance_unique(zs, w, d, (dd - root_depth(z0, world)) as nat, z0[j].zoneId@);
            }
        }
    }    if !own_parent(zs, w) {
        assert forall|j: int, d: nat|
            0 <= j < z.len() && j != world && #[trigger] at_distance(zs, w, d, z[j].zoneId@) implies z[j].depth == Some(
            (root_depth(z0, world) + d) as u32,
        ) by {
            assert(z[j].zoneId@ == z0[j].zoneId@);
            lemma_closed(zs, w, level, d, z0[j].zoneId@);
            let i = lemma_id_marked_witness(z0, marks, z0[j].zoneId@);
            assert(i == j);
            let dd = z[j].depth->0;
            lemma_at_distance_unique(zs, w, d, (dd - root_depth(z0, world)) as nat, z0[j].zoneId@);
        }
        if below_itself(zs, w) {
            let (k, i) = choose|k: nat, i: int| #[trigger] edge_into(zs, i, w) && #[trigger] reaches(zs, w, k, zs[i].parentId->0@);
            let p = zs[i].parentId->0@;
            lemma_closed(zs, w, level, k, p);
            assert(!at_distance(zs, w, level, p));
            assert(back_within(zs, w, level));
        }
    }
}

/// Gives every zone reachable from the zone at index `world` its depth below it, level by
/// level, and leaves the other zones as they are.
fn assign_depths(
    z: &mut Vec<Zone>,
    c: &Vec<(String, Vec<String>)>,
    world: usize,
    Ghost(zs): Ghost<Seq<Zone>>,
)
    requires
        bfs_frame(zs, old(z)@, c@, world as int),
    ensures
        same_but_depth(final(z)@, old(z)@),
        forall|j: int|
            #![trigger final(z)@[j]]
            0 <= j < final(z)@.len() && !reachable(zs, old(z)@[world as int].zoneId@, final(z)@[j].zoneId@)
                ==> final(z)@[j].depth == old(z)@[j].depth,
        forall|j: int, k: nat|
            #![trigger reaches(zs, old(z)@[world as int].zoneId@, k, final(z)@[j].zoneId@)]
            0 <= j < final(z)@.len() && reaches(zs, old(z)@[world as int].zoneId@, k, final(z)@[j].zoneId@)
                ==> final(z)@[j].depth is Some,
        !below_itself(zs, old(z)@[world as int].zoneId@) ==> forall|j: int, d: nat|
            #![trigger at_distance(zs, old(z)@[world as int].zoneId@, d, final(z)@[j].zoneId@)]
            0 <= j < final(z)@.len() && at_distance(zs, old(z)@[world as int].zoneId@, d, final(z)@[j].zoneId@)
                ==> final(z)@[j].depth == Some((root_depth(old(z)@, world as int) + d) as u32),
        !own_parent(zs, old(z)@[world as int].zoneId@) ==> forall|j: int, d: nat|
            #![trigger at_distance(zs, old(z)@[world as int].zoneId@, d, final(z)@[j].zoneId@)]
            0 <= j < final(z)@.len() && j != world && at_distance(zs, old(z)@[world as int].zoneId@, d, final(z)@[j].zoneId@)
                ==> final(z)@[j].depth == Some((root_depth(old(z)@, world as int) + d) as u32),
        !own_parent(zs, old(z)@[world as int].zoneId@) && below_itself(zs, old(z)@[world as int].zoneId@) ==> (
        final(z)@[world as int].depth matches Some(dw) && dw >= root_depth(old(z)@, world as int) && loop_length(
            zs,
            old(z)@[world as int].zoneId@,
            (dw - root_depth(old(z)@, world as int)) as nat,
        )),
{
    let ghost z0 = z@;
    let n = z.len();
    let mut marks: Vec<bool> = Vec::new();
    let mut q: usize = 0;
    while q < n
        invariant
            q <= n,
            n == z0.len(),
            marks@.len() == q,
            forall|j: int| 0 <= j < q ==> !marks@[j],
        decreases n - q,
    {
        marks.push(false);
        q = q + 1;
    }
    let mut edge: Vec<usize> = Vec::new();
    edge.push(world);
    let ghost mut level: nat = 0;
    proof {
        assert(edge@ == seq![world]);
        lemma_first_level(zs, z0, c@, world as int, marks@, edge@);
    }
    while edge.len() > 0
        invariant
            bfs_frame(zs, z0, c@, world as int),
            level_start(zs, z0, world as int, level, z@, marks@, edge@),
        decreases unmarked(marks@) + if edge@.len() > 0 {
            1nat
        } else {
            0nat
        },
    {
        let fresh = visit_level(z, &mut marks, &edge, c, world, Ghost(zs), Ghost(z0), Ghost(level));
        edge = fresh;
        proof {
            level = level + 1;
        }
    }
    proof {
        lemma_depths_final(zs, z0, c@, world as int, level, z@, marks@, edge@);
    }
}

proof fn lemma_parent_ids_unique(c: Seq<(String, Vec<String>)>, zs: Seq<Zone>)
    requires
        children_built_from(c, zs),
    ensures
        unique_parent_ids(c),
{
    reveal(children_built_from);
}

/// What the built zones give for an id: the last zone of `zs` with that id, but for its depth.
proof fn lemma_tree_zone(zs: Seq<Zone>, zb: Seq<Zone>, z: Seq<Zone>, id: Seq<char>)
    requires
        zones_built_from(zb, zs),
        same_but_depth(z, zb),
    ensures
        unique_zone_ids(z),
        first_zone(z, id) is Some <==> last_zone(zs, id) is Some,
        first_zone(z, id) is Some ==> exists|j: int|
            0 <= j < z.len() && z[j].zoneId@ == id && first_zone(z, id) == Some(z[j]) && zb[j]
                == last_zone(zs, id)->0,
{
    reveal(zones_built_from);
    assert forall|j: int| 0 <= j < z.len() implies #[trigger] z[j].zoneId == zb[j].zoneId by {
        assert(z[j] == Zone { depth: z[j].depth, ..zb[j] });
    }
    assert(unique_zone_ids(z));
    if last_zone(zs, id) is Some {
        let j = choose|j: int| 0 <= j < zb.len() && zb[j].zoneId@ == id;
        lemma_first_zone_unique(z, j);
    } else {
        assert forall|j: int| 0 <= j < z.len() implies z[j].zoneId@ != id by {
            assert(last_zone(zs, zb[j].zoneId@) == Some(zb[j]));
        }
        lemma_first_zone_none(z, id);
    }
}

/// What the built children entries give for a parent id.
proof fn lemma_tree_children(zs: Seq<Zone>, c: Seq<(String, Vec<String>)>, p: Seq<char>)
    requires
        children_built_from(c, zs),
    ensures
        first_children(c, p) == children_listed(zs, p),
{
    reveal(children_built_from);
    if child_ids(zs, p).len() > 0 {
        let j = choose|j: int| 0 <= j < c.len() && c[j].0@ == p;
        lemma_first_children_unique(c, j);
    } else {
        assert forall|j: int| 0 <= j < c.len() implies c[j].0@ != p by {
            assert(child_ids(zs, c[j].0@).len() > 0);
        }
        lemma_first_children_none(c, p);
    }
}

proof fn lemma_unmarked_all_false(v: Seq<bool>)
    requires
        forall|j: int| 0 <= j < v.len() ==> !v[j],
    ensures
        unmarked(v) == v.len(),
    decreases v.len(),
{
    if v.len() > 0 {
        lemma_unmarked_all_false(v.drop_last());
    }
}


/// The depth that the World zone's own listing gives, 0 when it gives none: the depth the walk
/// down from World counts from.
pub open spec fn world_start_depth(zs: Seq<Zone>) -> nat {
    match last_zone(zs, last_world(zs)->0.zoneId@)->0.depth {
        Some(k) => k as nat,
        None => 0,
    }
}

/// The World zone's depth in the tree when it does not lie below itself: that of its own
/// listing; 0 when the listing gives none but zones lie below World; none when none do.
pub open spec fn world_tree_depth(zs: Seq<Zone>) -> Option<u32> {
    let w = last_world(zs)->0.zoneId@;
    match last_zone(zs, w)->0.depth {
        Some(k) => Some(k),
        None => if children_listed(zs, w) is Some {
            Some(0u32)
        } else {
            None
        },
    }
}

/// What the walk down from the zone at index `world` leaves in `z`, from `z1`, counting from
/// depth `rd`.
spec fn depths_assigned(zs: Seq<Zone>, z1: Seq<Zone>, z: Seq<Zone>, world: int, rd: nat) -> bool {
    let w = z1[world].zoneId@;
    &&& same_but_depth(z, z1)
    &&& forall|j: int|
        #![trigger z[j]]
        0 <= j < z.len() && !reachable(zs, w, z[j].zoneId@) ==> z[j].depth == z1[j].depth
    &&& forall|j: int, k: nat|
        #![trigger reaches(zs, w, k, z[j].zoneId@)]
        0 <= j < z.len() && j != world && reaches(zs, w, k, z[j].zoneId@) ==> z[j].depth is Some
    &&& !below_itself(zs, w) ==> z[world].depth == z1[world].depth
    &&& !own_parent(zs, w) ==> forall|j: int, d: nat|
        #![trigger at_distance(zs, w, d, z[j].zoneId@)]
        0 <= j < z.len() && j != world && at_distance(zs, w, d, z[j].zoneId@) ==> z[j].depth == Some(
            (rd + d) as u32,
        )
    &&& !own_parent(zs, w) && below_itself(zs, w) ==> (z[world].depth matches Some(dw) && dw >= rd
        && loop_length(zs, w, (dw - rd) as nat))
}

/// With no zone below `w`, nothing but `w` itself can be reached from it.
proof fn lemma_reaches_only_self(zs: Seq<Zone>, w: Seq<char>, k: nat, x: Seq<char>)
    requires
        child_ids(zs, w).len() == 0,
        reaches(zs, w, k, x),
    ensures
        x == w,
    decreases k,
{
    if x != w {
        let i = choose|i: int|
            #[trigger] edge_into(zs, i, x) && reaches(zs, w, (k - 1) as nat, zs[i].parentId->0@);
        lemma_reaches_only_self(zs, w, (k - 1) as nat, zs[i].parentId->0@);
        lemma_child_ids_contains(zs, w, x);
        assert(has_parent(zs[i], w));
        assert(child_ids(zs, w).contains(x));
    }
}

impl ZoneTree {
    /// Builds the tree from a list of zones.
    ///
    /// For a zone id listed more than once, the last listing counts. The World zone is the
    /// last zone named "World". Every zone reachable from it by parent-to-child links gets,
    /// level by level, the depth of its parent plus one, counting from World's own depth; the
    /// other zones keep their depth. World keeps its depth; when it has none but zones lie
    /// below it, it counts as depth 0, so that the walk down from it has a start (that case
    /// is what the tree is built for: zones as the zones service lists them carry no depth).
    /// When World lies below itself (a loop of links back to it), it gets its start depth
    /// plus the length of the shortest loop when it is reached again. When World names
    /// itself as its parent, the children listed after it count from that new depth, so
    /// then the depths depend on the order of the listing; reachable zones get a depth.
    pub fn new(zones: Vec<Zone>) -> (t: ZoneTree)
        requires
            last_world(zones@) is Some,
            last_world(zones@)->0.zoneId@.len() > 0,
            world_start_depth(zones@) + zones@.len() < u32::MAX,
        ensures
            t.well_formed(),
            t.world_id@ == last_world(zones@)->0.zoneId@,
            forall|id: Seq<char>| #[trigger] t.zone(id) is Some <==> last_zone(zones@, id) is Some,
            forall|id: Seq<char>|
                #[trigger] t.zone(id) is Some ==> t.zone(id)->0 == (Zone {
                    depth: t.zone(id)->0.depth,
                    ..last_zone(zones@, id)->0
                }),
            forall|id: Seq<char>|
                #[trigger] t.zone(id) is Some && !reachable(zones@, t.world_id@, id) ==> t.zone(id)->0.depth
                    == last_zone(zones@, id)->0.depth,
            forall|id: Seq<char>, k: nat|
                #[trigger] reaches(zones@, t.world_id@, k, id) && id != t.world_id@ && t.zone(id) is Some
                    ==> (t.zone(id)->0.depth is Some),
            !below_itself(zones@, t.world_id@) ==> t.zone(t.world_id@)->0.depth == world_tree_depth(
                zones@,
            ),
            !own_parent(zones@, t.world_id@) ==> forall|id: Seq<char>, d: nat|
                #[trigger] at_distance(zones@, t.world_id@, d, id) && id != t.world_id@ && t.zone(id) is Some
                    ==> t.zone(id)->0.depth == Some((world_start_depth(zones@) + d) as u32),
            !own_parent(zones@, t.world_id@) && below_itself(zones@, t.world_id@) ==> (t.zone(
                t.world_id@,
            )->0.depth matches Some(dw) && dw >= world_start_depth(zones@) && loop_length(
                zones@,
                t.world_id@,
                (dw - world_start_depth(zones@)) as nat,
            )),
            forall|p: Seq<char>| #[trigger] t.children_of(p) == children_listed(zones@, p),
            tree_of(t, zones@),
    {
        let (mut z, c, world_id) = collect_zones(&zones);
        let ghost zs = zones@;
        let ghost zb = z@;
        let ghost w = world_id@;
        proof {
            lemma_last_world_in(zs);
            let i = choose|i: int| 0 <= i < zs.len() && zs[i] == last_world(zs)->0;
            lemma_zones_cover(zb, zs);
            let j = lemma_zone_present(zb, zs, i);
            assert(zb[j].zoneId@ == w);
        }
        let world = find_zone(&z, &world_id).unwrap();
        let below = find_children(&c, &world_id);
        proof {
            match below {
                Some(i) => lemma_first_children_at(c@, w, i as int),
                None => lemma_first_children_none(c@, w),
            }
            lemma_tree_children(zs, c@, w);
            reveal(zones_built_from);
            assert(last_zone(zs, w) == Some(zb[world as int]));
        }
        if z[world].depth.is_none() && below.is_some() {
            z[world].depth = Some(0);
        }
        proof {
            assert(same_but_depth(z@, zb)) by {
                assert forall|j: int| 0 <= j < z@.len() implies #[trigger] z@[j] == Zone { depth: z@[j].depth, ..zb[j] } by {
                    if j != world {
                        assert(z@[j] == zb[j]);
                    }
                }
            }
            lemma_tree_zone(zs, zb, z@, w);
            reveal(zones_cover);
            assert forall|i: int| 0 <= i < zs.len() implies exists|j: int| 0 <= j < z@.len() && z@[j].zoneId@ == #[trigger] zs[i].zoneId@ by {
                let j = lemma_zone_present(zb, zs, i);
                assert(z@[j] == Zone { depth: z@[j].depth, ..zb[j] });
            }
            assert(zones_cover(z@, zs));
            lemma_parent_ids_unique(c@, zs);
            assert(z@[world as int].depth == world_tree_depth(zs));
        }
        let ghost z1 = z@;
        let ghost rd = world_start_depth(zs);
        if z[world].depth.is_some() {
            assign_depths(&mut z, &c, world, Ghost(zs));
            proof {
                assert(z@[world as int].zoneId@ == w);
                if !below_itself(zs, w) {
                    assert(at_distance(zs, w, 0, z@[world as int].zoneId@));
                }
                assert(root_depth(z1, world as int) == rd);
                assert(depths_assigned(zs, z1, z@, world as int, rd));
            }
        } else {
            proof {
                lemma_children_absent(c@, zs, w);
                assert(same_but_depth(z@, z1)) by {
                    assert forall|j: int| 0 <= j < z@.len() implies #[trigger] z@[j] == Zone { depth: z@[j].depth, ..z1[j] } by {}
                }
                assert forall|j: int, k: nat|
                    0 <= j < z@.len() && j != world && #[trigger] reaches(zs, w, k, z@[j].zoneId@) implies z@[j].depth is Some by {
                    lemma_reaches_only_self(zs, w, k, z@[j].zoneId@);
                }
                assert forall|j: int, d: nat|
                    0 <= j < z@.len() && j != world && #[trigger] at_distance(zs, w, d, z@[j].zoneId@) implies z@[j].depth == Some(
                    (rd + d) as u32,
                ) by {
                    lemma_reaches_only_self(zs, w, d, z@[j].zoneId@);
                }
                assert(!below_itself(zs, w)) by {
                    if below_itself(zs, w) {
                        let (k, i) = choose|k: nat, i: int| #[trigger] edge_into(zs, i, w) && #[trigger] reaches(zs, w, k, zs[i].parentId->0@);
                        lemma_reaches_only_self(zs, w, k, zs[i].parentId->0@);
                        lemma_child_ids_contains(zs, w, w);
                        assert(has_parent(zs[i], w));
                        assert(child_ids(zs, w).contains(w));
                    }
                }
                assert(depths_assigned(zs, z1, z@, world as int, rd));
            }
        }
        proof {
            assert(z1[world as int].zoneId@ == w);
            assert forall|id: Seq<char>| #[trigger] first_zone(z@, id) is Some <==> last_zone(zs, id) is Some by {
                lemma_tree_zone(zs, zb, z@, id);
            }
            assert forall|id: Seq<char>| #[trigger] first_zone(z@, id) is Some implies first_zone(z@, id)->0 == Zone {
                depth: first_zone(z@, id)->0.depth,
                ..last_zone(zs, id)->0
            } by {
                lemma_tree_zone(zs, zb, z@, id);
                let j = choose|j: int|
                    0 <= j < z@.len() && z@[j].zoneId@ == id && first_zone(z@, id) == Some(z@[j]) && zb[j] == last_zone(zs, id)->0;
                assert(z@[j] == Zone { depth: z@[j].depth, ..zb[j] });
            }
            assert forall|id: Seq<char>| #[trigger] first_zone(z@, id) is Some && !reachable(zs, w, id) implies first_zone(z@, id)->0.depth
                == last_zone(zs, id)->0.depth by {
                lemma_tree_zone(zs, zb, z@, id);
                let j = choose|j: int|
                    0 <= j < z@.len() && z@[j].zoneId@ == id && first_zone(z@, id) == Some(z@[j]) && zb[j] == last_zone(zs, id)->0;
                assert(z@[j].depth == z1[j].depth);
                assert(j != world) by {
                    assert(reaches(zs, w, 0, w));
                }
                assert(z1[j] == zb[j]);
            }
            assert forall|id: Seq<char>, k: nat| #[trigger] reaches(zs, w, k, id) && id != w && first_zone(z@, id) is Some implies first_zone(z@, id)->0.depth is Some by {
                lemma_tree_zone(zs, zb, z@, id);
                let j = choose|j: int|
                    0 <= j < z@.len() && z@[j].zoneId@ == id && first_zone(z@, id) == Some(z@[j]) && zb[j] == last_zone(zs, id)->0;
                assert(reaches(zs, w, k, z@[j].zoneId@));
                assert(j != world);
            }
            lemma_tree_zone(zs, zb, z@, w);
            let jw = choose|j: int|
                0 <= j < z@.len() && z@[j].zoneId@ == w && first_zone(z@, w) == Some(z@[j]) && zb[j] == last_zone(zs, w)->0;
            assert(z@[world as int].zoneId@ == w);
            assert(jw == world);
            if !own_parent(zs, w) {
                assert forall|id: Seq<char>, d: nat| #[trigger] at_distance(zs, w, d, id) && id != w && first_zone(z@, id) is Some implies first_zone(z@, id)->0.depth
                    == Some((rd + d) as u32) by {
                    lemma_tree_zone(zs, zb, z@, id);
                    let j = choose|j: int|
                        0 <= j < z@.len() && z@[j].zoneId@ == id && first_zone(z@, id) == Some(z@[j]) && zb[j] == last_zone(zs, id)->0;
                    assert(at_distance(zs, w, d, z@[j].zoneId@));
                    assert(j != world);
                }
            }
            assert forall|p: Seq<char>| #[trigger] first_children(c@, p) == children_listed(zs, p) by {
                lemma_tree_children(zs, c@, p);
            }
        }
        ZoneTree { world_id, zones: z, children: c }
    }
}


/// The walk from the zone `id` up its parents, for at most `fuel` steps, to the first zone of
/// depth at most 2. `None` when the walk does not end within `fuel` steps or meets a zone of
/// the tree without a depth; `Some(None)` when it leaves the tree or meets a zone without parent.
pub open spec fn country_walk(t: ZoneTree, id: Seq<char>, fuel: nat) -> Option<Option<Zone>>
    decreases fuel,
{
    match t.zone(id) {
        None => Some(None),
        Some(z) => match z.depth {
            None => None,
            Some(d) => if d <= 2 {
                Some(Some(z))
            } else {
                match z.parentId {
                    None => Some(None),
                    Some(p) => if fuel == 0 {
                        None
                    } else {
                        country_walk(t, p@, (fuel - 1) as nat)
                    },
                }
            },
        },
    }
}

/// The walk up from `id` ends.
pub open spec fn country_walk_ends(t: ZoneTree, id: Seq<char>) -> bool {
    exists|fuel: nat| #[trigger] country_walk(t, id, fuel) is Some
}

/// Where the walk up from `id` ends: the first zone of depth at most 2, if any.
pub open spec fn country_or_higher(t: ZoneTree, id: Seq<char>) -> Option<Zone> {
    country_walk(t, id, choose|fuel: nat| #[trigger] country_walk(t, id, fuel) is Some)->0
}

proof fn lemma_walk_more_fuel(t: ZoneTree, id: Seq<char>, f1: nat, f2: nat)
    requires
        f1 <= f2,
        country_walk(t, id, f1) is Some,
    ensures
        country_walk(t, id, f2) == country_walk(t, id, f1),
    decreases f1,
{
    if let Some(z) = t.zone(id) {
        if let Some(d) = z.depth {
            if d > 2 {
                if let Some(p) = z.parentId {
                    lemma_walk_more_fuel(t, p@, (f1 - 1) as nat, (f2 - 1) as nat);
                }
            }
        }
    }
}

proof fn lemma_walk_result(t: ZoneTree, id: Seq<char>, f: nat)
    requires
        country_walk(t, id, f) is Some,
    ensures
        country_or_higher(t, id) == country_walk(t, id, f)->0,
{
    let g = choose|fuel: nat| #[trigger] country_walk(t, id, fuel) is Some;
    if g <= f {
        lemma_walk_more_fuel(t, id, g, f);
    } else {
        lemma_walk_more_fuel(t, id, f, g);
    }
}

/// What `new` makes of a list of zones: the World zone's id, each zone id's last listing (with
/// its depth), World's depth and the depths below it counted from World's when World does not
/// lie below itself, and each parent's children.
pub open spec fn tree_of(t: ZoneTree, zs: Seq<Zone>) -> bool {
    &&& last_world(zs) is Some
    &&& t.world_id@ == last_world(zs)->0.zoneId@
    &&& forall|id: Seq<char>| #[trigger] t.zone(id) is Some <==> last_zone(zs, id) is Some
    &&& forall|id: Seq<char>|
        #[trigger] t.zone(id) is Some ==> t.zone(id)->0 == (Zone { depth: t.zone(id)->0.depth, ..last_zone(zs, id)->0 })
    &&& !below_itself(zs, t.world_id@) ==> t.zone(t.world_id@)->0.depth == world_tree_depth(zs)
    &&& !own_parent(zs, t.world_id@) ==> forall|id: Seq<char>, d: nat|
        #[trigger] at_distance(zs, t.world_id@, d, id) && id != t.world_id@ && t.zone(id) is Some
            ==> t.zone(id)->0.depth == Some((world_start_depth(zs) + d) as u32)
    &&& !own_parent(zs, t.world_id@) && below_itself(zs, t.world_id@) ==> (t.zone(t.world_id@)->0.depth matches Some(
        dw,
    ) && dw >= world_start_depth(zs) && loop_length(zs, t.world_id@, (dw - world_start_depth(zs)) as nat))
    &&& forall|p: Seq<char>| #[trigger] t.children_of(p) == children_listed(zs, p)
}

/// In a tree built from zones with distinct ids, every child listed under a parent is a zone
/// of the tree that names that parent, and no parent has an empty list of children.
pub proof fn lemma_tree_children_name_parent(t: ZoneTree, zs: Seq<Zone>, p: Seq<char>, c: Seq<char>)
    requires
        tree_of(t, zs),
        unique_zone_ids(zs),
        t.children_of(p) is Some,
        t.children_of(p)->0.contains(c),
    ensures
        t.children_of(p)->0.len() > 0,
        t.zone(c) is Some,
        has_parent(t.zone(c)->0, p),
{
    assert(t.children_of(p) == children_listed(zs, p));
    lemma_listed_children_name_parent(zs, p, c);
    assert(t.zone(c) is Some);
}

/// In a tree built from zones with distinct ids, where World is not its own parent and has a
/// depth of at most 2 (at most 1 when it lies below itself), the walk up from a zone `d` links
/// below World (other than World, when it lies below itself) ends, at the zone on the way
/// whose depth is that of the zone, but at most 2: `get_country_or_higher` can be called for
/// every such zone.
pub proof fn lemma_country_walk_ends(t: ZoneTree, zs: Seq<Zone>, id: Seq<char>, d: nat)
    requires
        tree_of(t, zs),
        unique_zone_ids(zs),
        !own_parent(zs, t.world_id@),
        world_tree_depth(zs) is Some,
        world_start_depth(zs) <= (if below_itself(zs, t.world_id@) {
            1nat
        } else {
            2nat
        }),
        below_itself(zs, t.world_id@) ==> id != t.world_id@,
        at_distance(zs, t.world_id@, d, id),
        world_start_depth(zs) + d <= u32::MAX,
    ensures
        t.zone(id) is Some,
        t.zone(id)->0.depth == Some((world_start_depth(zs) + d) as u32),
        country_walk_ends(t, id),
        country_or_higher(t, id) matches Some(z) && z.depth == Some(
            (if world_start_depth(zs) + d <= 2 {
                world_start_depth(zs) + d
            } else {
                2
            }) as u32,
        ),
    decreases d,
{
    let w = t.world_id@;
    let rd = world_start_depth(zs);
    if id == w {
        lemma_last_world_in(zs);
        let i = choose|i: int| 0 <= i < zs.len() && zs[i] == last_world(zs)->0;
        lemma_last_zone_some(zs, i);
        if d > 0 {
            assert(reaches(zs, w, (d - 1) as nat, w));
        }
    } else {
        let i = choose|i: int|
            #[trigger] edge_into(zs, i, id) && reaches(zs, w, (d - 1) as nat, zs[i].parentId->0@);
        lemma_last_zone_some(zs, i);
    }
    assert(t.zone(id) is Some);
    let z = t.zone(id)->0;
    assert(z.depth == Some((rd + d) as u32));
    if rd + d <= 2 {
        assert(country_walk(t, id, 0) == Some(Some(z)));
        lemma_walk_result(t, id, 0);
    } else {
        assert(id != w);
        let i = choose|i: int|
            #[trigger] edge_into(zs, i, id) && reaches(zs, w, (d - 1) as nat, zs[i].parentId->0@);
        lemma_last_zone_unique(zs, i);
        let p = zs[i].parentId->0@;
        assert(z.parentId == zs[i].parentId);
        assert(d >= 2 ==> !reaches(zs, w, (d - 2) as nat, p)) by {
            if d >= 2 && reaches(zs, w, (d - 2) as nat, p) {
                lemma_reaches_child(zs, w, (d - 2) as nat, i);
            }
        }
        assert(at_distance(zs, w, (d - 1) as nat, p));
        lemma_country_walk_ends(t, zs, p, (d - 1) as nat);
        let f = choose|f: nat| #[trigger] country_walk(t, p, f) is Some;
        lemma_walk_result(t, p, f);
        assert(country_walk(t, id, f + 1) == country_walk(t, p, f));
        lemma_walk_result(t, id, f + 1);
    }
}

/// Following parent links up from `id`, through the last listing of each zone id in `zs`,
/// reaches `w` within `k` steps.
pub open spec fn chain_reaches(zs: Seq<Zone>, w: Seq<char>, k: nat, id: Seq<char>) -> bool
    decreases k,
{
    if id == w {
        true
    } else if k == 0 {
        false
    } else {
        match last_zone(zs, id) {
            Some(z) => match z.parentId {
                Some(p) => chain_reaches(zs, w, (k - 1) as nat, p@),
                None => false,
            },
            None => false,
        }
    }
}

proof fn lemma_last_zone_in(zs: Seq<Zone>, id: Seq<char>)
    requires
        last_zone(zs, id) is Some,
    ensures
        exists|i: int|
            0 <= i < zs.len() && zs[i] == last_zone(zs, id)->0 && zs[i].zoneId@ == id && forall|j: int|
                i < j < zs.len() ==> zs[j].zoneId@ != id,
    decreases zs.len(),
{
    if zs.last().zoneId@ != id {
        let p = zs.drop_last();
        lemma_last_zone_in(p, id);
        let i = choose|i: int|
            0 <= i < p.len() && p[i] == last_zone(p, id)->0 && p[i].zoneId@ == id && forall|j: int|
                i < j < p.len() ==> p[j].zoneId@ != id;
        assert(zs[i] == p[i]);
        assert forall|j: int| i < j < zs.len() implies zs[j].zoneId@ != id by {
            if j < zs.len() - 1 {
                assert(zs[j] == p[j]);
            }
        }
    } else {
        assert(zs[zs.len() - 1] == zs.last());
    }
}

/// A chain of parents from `id` up to `w` is a path of links from `w` down to `id`.
proof fn lemma_chain_reaches(zs: Seq<Zone>, w: Seq<char>, k: nat, id: Seq<char>)
    requires
        chain_reaches(zs, w, k, id),
    ensures
        reaches(zs, w, k, id),
    decreases k,
{
    if id != w {
        lemma_last_zone_in(zs, id);
        let i = choose|i: int| 0 <= i < zs.len() && zs[i] == last_zone(zs, id)->0 && zs[i].zoneId@ == id;
        let p = zs[i].parentId->0@;
        lemma_chain_reaches(zs, w, (k - 1) as nat, p);
        assert(edge_into(zs, i, id));
    }
}

/// What can be reached within `k` links lies at some distance of at most `k`.
proof fn lemma_least_distance(zs: Seq<Zone>, w: Seq<char>, k: nat, x: Seq<char>) -> (d: nat)
    requires
        reaches(zs, w, k, x),
    ensures
        d <= k,
        at_distance(zs, w, d, x),
    decreases k,
{
    if k > 0 && reaches(zs, w, (k - 1) as nat, x) {
        lemma_least_distance(zs, w, (k - 1) as nat, x)
    } else {
        k
    }
}

/// In a tree built from zones with distinct ids, where World is not its own parent and has a
/// depth of at most 2 (at most 1 when it lies below itself), the walk up from a zone whose
/// chain of parents leads to World ends, at the zone on the way whose depth is that of the
/// zone, but at most 2.
pub proof fn lemma_country_walk_from_chain(t: ZoneTree, zs: Seq<Zone>, id: Seq<char>, k: nat)
    requires
        tree_of(t, zs),
        unique_zone_ids(zs),
        !own_parent(zs, t.world_id@),
        world_tree_depth(zs) is Some,
        world_start_depth(zs) <= (if below_itself(zs, t.world_id@) {
            1nat
        } else {
            2nat
        }),
        chain_reaches(zs, t.world_id@, k, id),
        world_start_depth(zs) + k <= u32::MAX,
    ensures
        t.zone(id) is Some,
        t.zone(id)->0.depth is Some,
        country_walk_ends(t, id),
        country_or_higher(t, id) matches Some(z) && z.depth == Some(
            (if t.zone(id)->0.depth->0 <= 2 {
                t.zone(id)->0.depth->0
            } else {
                2
            }),
        ),
{
    let w = t.world_id@;
    let rd = world_start_depth(zs);
    lemma_chain_reaches(zs, w, k, id);
    let d = lemma_least_distance(zs, w, k, id);
    if id != w || !below_itself(zs, w) {
        lemma_country_walk_ends(t, zs, id, d);
    } else {
        lemma_last_world_in(zs);
        let iw = choose|i: int| 0 <= i < zs.len() && zs[i] == last_world(zs)->0;
        lemma_last_zone_some(zs, iw);
        assert(t.zone(w) is Some);
        let z = t.zone(w)->0;
        let dw = z.depth->0;
        let l = (dw - rd) as nat;
        assert(loop_length(zs, w, l));
        if dw <= 2 {
            assert(country_walk(t, w, 0) == Some(Some(z)));
            lemma_walk_result(t, w, 0);
        } else {
            let i = choose|i: int|
                #[trigger] edge_into(zs, i, w) && reaches(zs, w, (l - 1) as nat, zs[i].parentId->0@);
            lemma_last_zone_unique(zs, i);
            let q = zs[i].parentId->0@;
            assert(z.parentId == zs[i].parentId);
            assert(q != w);
            assert(l >= 2 ==> !reaches(zs, w, (l - 2) as nat, q)) by {
                if l >= 2 && reaches(zs, w, (l - 2) as nat, q) {
                    assert(back_within(zs, w, (l - 1) as nat));
                }
            }
            assert(at_distance(zs, w, (l - 1) as nat, q));
            lemma_country_walk_ends(t, zs, q, (l - 1) as nat);
            let f = choose|f: nat| #[trigger] country_walk(t, q, f) is Some;
            lemma_walk_result(t, q, f);
            assert(country_walk(t, w, f + 1) == country_walk(t, q, f));
            lemma_walk_result(t, w, f + 1);
        }
    }
}

/// In a tree built from `zs`, an id has a zone exactly when some zone of `zs` has that id;
/// the zone is then the last listing of that id in `zs`, but for its depth.
pub proof fn lemma_tree_zone_lookup(t: ZoneTree, zs: Seq<Zone>, id: Seq<char>)
    requires
        tree_of(t, zs),
    ensures
        t.zone(id) is Some <==> exists|i: int| 0 <= i < zs.len() && zs[i].zoneId@ == id,
        t.zone(id) is Some ==> exists|i: int|
            0 <= i < zs.len() && zs[i].zoneId@ == id && t.zone(id)->0 == (Zone { depth: t.zone(id)->0.depth, ..zs[i] })
                && forall|j: int| i < j < zs.len() ==> zs[j].zoneId@ != id,
{
    if exists|i: int| 0 <= i < zs.len() && zs[i].zoneId@ == id {
        let i = choose|i: int| 0 <= i < zs.len() && zs[i].zoneId@ == id;
        lemma_last_zone_some(zs, i);
    }
    if t.zone(id) is Some {
        lemma_last_zone_in(zs, id);
    }
}

/// The ids of the zones of `zs` that name `p` as their parent, in the order of `zs`.
pub open spec fn zones_under(zs: Seq<Zone>, p: Seq<char>) -> Seq<Seq<char>> {
    zs.filter(|z: Zone| has_parent(z, p)).map_values(|z: Zone| z.zoneId@)
}

proof fn lemma_child_ids_filter(zs: Seq<Zone>, p: Seq<char>)
    ensures
        child_ids(zs, p) == zones_under(zs, p),
    decreases zs.len(),
{
    reveal(Seq::filter);
    if zs.len() > 0 {
        lemma_child_ids_filter(zs.drop_last(), p);
        let f = zs.drop_last().filter(|z: Zone| has_parent(z, p));
        assert(zs.filter(|z: Zone| has_parent(z, p)) == if has_parent(zs.last(), p) {
            f.push(zs.last())
        } else {
            f
        });
        if has_parent(zs.last(), p) {
            assert(f.push(zs.last()).map_values(|z: Zone| z.zoneId@) =~= f.map_values(|z: Zone| z.zoneId@).push(
                zs.last().zoneId@,
            ));
        }
    } else {
        assert(zones_under(zs, p) =~= Seq::<Seq<char>>::empty());
    }
}

/// In a tree built from `zs`, the children listed under a parent id are the ids of the zones
/// of `zs` that name it as their parent, in the order of `zs`, repeats kept; a parent id that
/// no zone names has no entry.
pub proof fn lemma_tree_children_lookup(t: ZoneTree, zs: Seq<Zone>, p: Seq<char>)
    requires
        tree_of(t, zs),
    ensures
        t.children_of(p) == (if zones_under(zs, p).len() > 0 {
            Some(zones_under(zs, p))
        } else {
            None
        }),
{
    lemma_child_ids_filter(zs, p);
}

impl ZoneTree {
    /// Walks up from a zone through its parents to the first zone of depth at most 2 (a
    /// country, a continent or World). `None` if the walk leaves the tree or meets a zone
    /// without parent first.
    pub fn get_country_or_higher(&self, zone_id: &str) -> (r: Option<&Zone>)
        requires
            country_walk_ends(*self, zone_id@),
        ensures
            match r {
                Some(z) => country_or_higher(*self, zone_id@) == Some(*z),
                None => country_or_higher(*self, zone_id@) is None,
            },
    {
        let ghost f0 = choose|fuel: nat| #[trigger] country_walk(*self, zone_id@, fuel) is Some;
        let ghost result = country_walk(*self, zone_id@, f0)->0;
        proof {
            lemma_walk_result(*self, zone_id@, f0);
        }
        let mut id: &str = zone_id;
        let ghost mut fuel: nat = f0;
        loop
            invariant
                country_walk(*self, id@, fuel) == Some(result),
                result == country_or_higher(*self, zone_id@),
            decreases fuel,
        {
            match self.get_zone(id) {
                None => {
                    return None;
                },
                Some(zone) => {
                    let d = zone.depth.unwrap();
                    if d <= 2 {
                        return Some(zone);
                    }
                    match &zone.parentId {
                        Some(p) => {
                            id = p.as_str();
                            proof {
                                fuel = (fuel - 1) as nat;
                            }
                        },
                        None => {
                            return None;
                        },
                    }
                },
            }
        }
    }
}

} // verus!
