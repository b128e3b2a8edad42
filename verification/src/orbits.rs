//! The orbit graph: a list of `parent)child` relationships, walked
//! child to parent up to the universal center `COM`.  The first count
//! totals every direct and indirect orbit; the second finds the
//! transfers between the carriers of `YOU` and `SAN`.

use vstd::prelude::*;

verus! {

/// One relationship: the carried body orbits the carrier.
pub type Relationship = (String, String);

/// The walk up from `YOU`, fuelled past every relationship.
pub open spec fn you_walk(input: Seq<Relationship>) -> Seq<Seq<char>> {
    chain_nodes(rel_views(input), "YOU"@, (input.len() + 1) as nat)
}

/// The walk up from `SAN`, fuelled past every relationship.
pub open spec fn san_walk(input: Seq<Relationship>) -> Seq<Seq<char>> {
    chain_nodes(rel_views(input), "SAN"@, (input.len() + 1) as nat)
}

#[derive(Clone, Copy, Debug, PartialEq, Eq, Structural)]
pub enum OrbitError {
    /// A walk ran past every relationship: the graph loops.
    Cycle,
    /// The two walks never meet, or meet at their very start.
    NoTransfer,
    /// The total left the machine's counting range.
    Overflow,
}

/// The parent a child was last declared to orbit: relationships later
/// in the list override earlier ones.
pub open spec fn lookup(list: Seq<(Seq<char>, Seq<char>)>, child: Seq<char>) -> Option<Seq<char>>
    decreases list.len(),
{
    if list.len() == 0 {
        None
    } else if list.last().1 == child {
        Some(list.last().0)
    } else {
        lookup(list.drop_last(), child)
    }
}

/// The views of a relationship list.
pub open spec fn rel_views(list: Seq<Relationship>) -> Seq<(Seq<char>, Seq<char>)> {
    list.map_values(|r: Relationship| (r.0@, r.1@))
}

/// The bodies a walk yields, starting at `node` and following parents
/// until the center, a missing parent, or the fuel runs out; the
/// center itself is never yielded.
pub open spec fn chain_nodes(
    list: Seq<(Seq<char>, Seq<char>)>,
    node: Seq<char>,
    fuel: nat,
) -> Seq<Seq<char>>
    decreases fuel,
{
    if fuel == 0 || node == "COM"@ {
        Seq::<Seq<char>>::empty()
    } else {
        seq![node] + (match lookup(list, node) {
            Some(p) => chain_nodes(list, p, (fuel - 1) as nat),
            None => Seq::<Seq<char>>::empty(),
        })
    }
}

/// The walk from `node` ended within the fuel: no cycle was hit.
pub open spec fn chain_total(list: Seq<(Seq<char>, Seq<char>)>, node: Seq<char>, fuel: nat) -> bool
    decreases fuel,
{
    if node == "COM"@ {
        true
    } else if fuel == 0 {
        false
    } else {
        match lookup(list, node) {
            Some(p) => chain_total(list, p, (fuel - 1) as nat),
            None => true,
        }
    }
}

/// A walking cursor over the orbit graph: the relationships, the
/// bodies still to start walks from, and the walk's current body.
pub struct RelationshipIter {
    map: Vec<Relationship>,
    nodes: Vec<String>,
    node_idx: usize,
    next: Option<String>,
}

impl RelationshipIter {
    /// A cursor over every distinct carried body of the list: the
    /// first starts the walk, the rest stand queued behind it.
    pub fn from_list(list: &Vec<Relationship>) -> (r: RelationshipIter)
        ensures
            rel_views(r@.0) == rel_views(list@),
            r@.1 == (if distinct_children(list@, list@.len() as int).len() > 0 {
                Some(distinct_children(list@, list@.len() as int)[0])
            } else {
                None::<Seq<char>>
            }),
            r@.2 == distinct_children(list@, list@.len() as int).skip(
                if distinct_children(list@, list@.len() as int).len() > 0 {
                    1int
                } else {
                    0int
                },
            ),
    {
        let mut nodes: Vec<String> = Vec::new();
        let mut i: usize = 0;
        while i < list.len()
            invariant
                i <= list@.len(),
                nodes@.map_values(|s: String| s@) == distinct_children(list@, i as int),
            decreases list@.len() - i,
        {
            let child: &String = &list[i].1;
            let mut seen = false;
            let mut j: usize = 0;
            while j < nodes.len()
                invariant
                    j <= nodes@.len(),
                    seen <==> exists|q: int| 0 <= q < j && (#[trigger] nodes@[q])@ == child@,
                decreases nodes@.len() - j,
            {
                if nodes[j].eq(child) {
                    proof {
                        assert(nodes@[j as int]@ == child@);
                    }
                    seen = true;
                }
                j = j + 1;
            }
            proof {
                assert(seen <==> distinct_children(list@, i as int).contains(child@)) by {
                    if seen {
                        let q = choose|q: int|
                            0 <= q < nodes@.len() && (#[trigger] nodes@[q])@ == child@;
                        assert(distinct_children(list@, i as int)[q] == child@);
                    }
                    if distinct_children(list@, i as int).contains(child@) {
                        let q = choose|q: int|
                            0 <= q < distinct_children(list@, i as int).len()
                                && distinct_children(list@, i as int)[q] == child@;
                        assert(nodes@[q]@ == child@);
                    }
                }
            }
            if !seen {
                nodes.push(child.clone());
            }
            proof {
                assert(nodes@.map_values(|s: String| s@) =~= distinct_children(list@, i + 1));
            }
            i = i + 1;
        }
        let next: Option<String> = if nodes.len() > 0 {
            Some(nodes[0].clone())
        } else {
            None
        };
        let node_idx: usize = if nodes.len() > 0 {
            1
        } else {
            0
        };
        let r = RelationshipIter { map: clone_rels(list), nodes, node_idx, next };
        proof {
            let dc = distinct_children(list@, list@.len() as int);
            assert(r.nodes@.map_values(|s: String| s@) == dc);
            if dc.len() > 0 {
                assert(r@.2 =~= dc.skip(1));
            } else {
                assert(r@.2 =~= dc.skip(0));
            }
        }
        r
    }

    /// A cursor for one walk only, starting at `node`.
    pub fn with_single_traversal_from_node(list: &Vec<Relationship>, node: &String) -> (r:
        RelationshipIter)
        ensures
            rel_views(r@.0) == rel_views(list@),
            r@.1 == Some(node@),
            r@.2 == Seq::<Seq<char>>::empty(),
    {
        let r = RelationshipIter {
            map: clone_rels(list),
            nodes: Vec::new(),
            node_idx: 0,
            next: Some(node.clone()),
        };
        proof {
            assert(r@.2 =~= Seq::<Seq<char>>::empty());
        }
        r
    }

    /// Yields the walk's current body and moves to its parent; at the
    /// center or past a missing parent, the next queued body starts a
    /// fresh walk.
    pub fn next(&mut self) -> (r: Option<String>)
        ensures
            rel_views(final(self)@.0) == rel_views(old(self)@.0),
            match r {
                Some(node) => final(self)@.1 == lookup_view(rel_views(old(self)@.0), node@),
                None => final(self)@.1 is None,
            },
            match old(self)@.1 {
                Some(n) => {
                    if n != "COM"@ {
                        &&& r is Some
                        &&& r.unwrap()@ == n
                        &&& final(self)@.2 == old(self)@.2
                    } else {
                        queued_step(old(self)@.2, final(self)@.2, r)
                    }
                },
                None => queued_step(old(self)@.2, final(self)@.2, r),
            },
    {
        let ghost q0 = self@.2;
        let take_queued: bool = match &self.next {
            Some(n) => {
                let com = string_com();
                n.eq(&com)
            },
            None => true,
        };
        let current: Option<String> = if take_queued {
            if self.node_idx < self.nodes.len() {
                let n = self.nodes[self.node_idx].clone();
                proof {
                    assert(n@ == q0[0]);
                }
                self.node_idx = self.node_idx + 1;
                proof {
                    assert(self@.2 =~= q0.skip(1));
                }
                Some(n)
            } else {
                proof {
                    assert(q0.len() == 0);
                    assert(self@.2 =~= q0);
                }
                None
            }
        } else {
            let n = match &self.next {
                Some(n) => n.clone(),
                None => {
                    proof {
                        assert(false);
                    }
                    return None;
                },
            };
            Some(n)
        };
        match &current {
            Some(node) => {
                self.next = Self::lookup_parent(&self.map, node);
                Some(node.clone())
            },
            None => {
                self.next = None;
                None
            },
        }
    }

    /// The parent of `child`, the list's later entries overriding its
    /// earlier ones.
    fn lookup_parent(map: &Vec<Relationship>, child: &String) -> (r: Option<String>)
        ensures
            (match r {
                Some(p) => Some(p@),
                None => None::<Seq<char>>,
            }) == lookup(rel_views(map@), child@),
    {
        let mut i: usize = map.len();
        proof {
            assert(rel_views(map@).take(map@.len() as int) =~= rel_views(map@));
        }
        while i > 0
            invariant
                i <= map@.len(),
                lookup(rel_views(map@), child@) == lookup(
                    rel_views(map@).take(i as int),
                    child@,
                ),
            decreases i,
        {
            proof {
                assert(rel_views(map@).take(i as int).drop_last() =~= rel_views(map@).take(
                    i as int - 1,
                ));
                assert(rel_views(map@).take(i as int).last() == (map@[i as int - 1].0@, map@[i
                    as int - 1].1@));
            }
            if map[i - 1].1.eq(child) {
                return Some(map[i - 1].0.clone());
            }
            i = i - 1;
        }
        proof {
            assert(rel_views(map@).take(0int) =~= Seq::<(Seq<char>, Seq<char>)>::empty());
        }
        None
    }
}

/// A fresh walk starts at the next queued body, or the cursor ends.
pub open spec fn queued_step(
    before: Seq<Seq<char>>,
    after: Seq<Seq<char>>,
    r: Option<String>,
) -> bool {
    if before.len() == 0 {
        r is None && after == before
    } else {
        r is Some && r.unwrap()@ == before[0] && after == before.skip(1)
    }
}

/// What the lookup yields, as a view.
pub open spec fn lookup_view(list: Seq<(Seq<char>, Seq<char>)>, child: Seq<char>) -> Option<
    Seq<char>,
> {
    lookup(list, child)
}

impl View for RelationshipIter {
    type V = (Seq<Relationship>, Option<Seq<char>>, Seq<Seq<char>>);

    closed spec fn view(&self) -> (Seq<Relationship>, Option<Seq<char>>, Seq<Seq<char>>) {
        (
            self.map@,
            match self.next {
                Some(ref n) => Some(n@),
                None => None,
            },
            if self.node_idx <= self.nodes@.len() {
                Seq::new(
                    (self.nodes@.len() - self.node_idx) as nat,
                    |k: int| self.nodes@[self.node_idx + k]@,
                )
            } else {
                Seq::<Seq<char>>::empty()
            },
        )
    }
}

/// A copy of the relationship list, name for name.
fn clone_rels(list: &Vec<Relationship>) -> (r: Vec<Relationship>)
    ensures
        rel_views(r@) == rel_views(list@),
{
    let mut r: Vec<Relationship> = Vec::new();
    let mut i: usize = 0;
    while i < list.len()
        invariant
            i <= list@.len(),
            r@.len() == i,
            forall|q: int|
                0 <= q < i ==> (#[trigger] r@[q]).0@ == list@[q].0@ && r@[q].1@ == list@[q].1@,
        decreases list@.len() - i,
    {
        r.push((list[i].0.clone(), list[i].1.clone()));
        i = i + 1;
    }
    proof {
        assert(rel_views(r@) =~= rel_views(list@));
    }
    r
}

fn string_com() -> (r: String)
    ensures
        r@ == "COM"@,
{
    let r = "COM";
    String::from_str(r)
}

/// The length of one body's walk: one step per parent followed,
/// stopping short of the center.
fn walk_len(map: &Vec<Relationship>, node: &String, fuel: usize) -> (r: Result<usize, OrbitError>)
    ensures
        match r {
            Ok(v) => v == chain_nodes(rel_views(map@), node@, fuel as nat).len() && chain_total(
                rel_views(map@),
                node@,
                fuel as nat,
            ),
            Err(e) => e == OrbitError::Cycle && !chain_total(rel_views(map@), node@, fuel as nat),
        },
{
    let mut cur: String = node.clone();
    let mut count: usize = 0;
    let mut left: usize = fuel;
    let com = string_com();
    while left > 0
        invariant
            com@ == "COM"@,
            left <= fuel,
            count == fuel - left,
            chain_nodes(rel_views(map@), node@, fuel as nat).len() == count + chain_nodes(
                rel_views(map@),
                cur@,
                left as nat,
            ).len(),
            chain_total(rel_views(map@), node@, fuel as nat) == chain_total(
                rel_views(map@),
                cur@,
                left as nat,
            ),
        decreases left,
    {
        if cur.eq(&com) {
            proof {
                reveal_strlit("COM");
                assert(cur@ == "COM"@);
                assert(chain_nodes(rel_views(map@), cur@, left as nat).len() == 0);
            }
            return Ok(count);
        }
        proof {
            reveal_strlit("COM");
            assert(cur@ != "COM"@);
        }
        let ghost prev = cur@;
        let ghost prev_left = left as nat;
        match RelationshipIter::lookup_parent(map, &cur) {
            Some(p) => {
                proof {
                    assert(chain_nodes(rel_views(map@), prev, prev_left) =~= seq![prev]
                        + chain_nodes(rel_views(map@), p@, (prev_left - 1) as nat));
                    assert(chain_total(rel_views(map@), prev, prev_left) == chain_total(
                        rel_views(map@),
                        p@,
                        (prev_left - 1) as nat,
                    ));
                }
                cur = p;
            },
            None => {
                proof {
                    assert(chain_nodes(rel_views(map@), prev, prev_left) =~= seq![prev]
                        + Seq::<Seq<char>>::empty());
                    assert(chain_nodes(rel_views(map@), prev, prev_left).len() == 1);
                    assert(chain_total(rel_views(map@), prev, prev_left));
                }
                return Ok(count + 1);
            },
        }
        count = count + 1;
        left = left - 1;
    }
    let at_center = cur.eq(&com);
    if at_center {
        return Ok(count);
    }
    proof {
        assert(!chain_total(rel_views(map@), cur@, 0nat));
    }
    Err(OrbitError::Cycle)
}

/// Totals every direct and indirect orbit: the sum of every distinct
/// carried body's walk up to the center.
pub fn solve_1(input: &Vec<Relationship>) -> (r: Result<usize, OrbitError>)
    ensures
        match r {
            Ok(v) => v as int == orbit_total(
                rel_views(input@),
                distinct_children(input@, input@.len() as int),
                input@.len() + 1,
            ),
            Err(e) => match e {
                OrbitError::Cycle => exists|k: int|
                    0 <= k < distinct_children(input@, input@.len() as int).len()
                        && !chain_total(
                        rel_views(input@),
                        #[trigger] distinct_children(input@, input@.len() as int)[k],
                        (input@.len() + 1) as nat,
                    ),
                OrbitError::Overflow => input@.len() + 1 > usize::MAX || exists|k: int|
                    0 <= k < distinct_children(input@, input@.len() as int).len()
                        && #[trigger] orbit_total(
                        rel_views(input@),
                        distinct_children(input@, input@.len() as int).take(k + 1),
                        (input@.len() + 1) as nat,
                    ) > usize::MAX,
                OrbitError::NoTransfer => false,
            },
        },
{
    let ghost lv = rel_views(input@);
    let mut nodes: Vec<String> = Vec::new();
    let mut i: usize = 0;
    while i < input.len()
        invariant
            i <= input@.len(),
            nodes@.map_values(|s: String| s@) == distinct_children(input@, i as int),
        decreases input@.len() - i,
    {
        let child: &String = &input[i].1;
        let mut seen = false;
        let mut j: usize = 0;
        while j < nodes.len()
            invariant
                j <= nodes@.len(),
                seen <==> exists|q: int| 0 <= q < j && (#[trigger] nodes@[q])@ == child@,
            decreases nodes@.len() - j,
        {
            if nodes[j].eq(child) {
                proof {
                    assert(nodes@[j as int]@ == child@);
                }
                seen = true;
            }
            j = j + 1;
        }
        proof {
            assert(seen <==> distinct_children(input@, i as int).contains(child@)) by {
                if seen {
                    let q = choose|q: int| 0 <= q < nodes@.len() && (#[trigger] nodes@[q])@
                        == child@;
                    assert(distinct_children(input@, i as int)[q] == child@);
                }
                if distinct_children(input@, i as int).contains(child@) {
                    let q = choose|q: int|
                        0 <= q < distinct_children(input@, i as int).len() && distinct_children(
                            input@,
                            i as int,
                        )[q] == child@;
                    assert(nodes@[q]@ == child@);
                }
            }
        }
        if !seen {
            nodes.push(child.clone());
        }
        proof {
            assert(nodes@.map_values(|s: String| s@) =~= distinct_children(input@, i + 1));
        }
        i = i + 1;
    }
    let fuel: usize = match input.len().checked_add(1) {
        Some(f) => f,
        None => {
            return Err(OrbitError::Overflow);
        },
    };
    let mut total: usize = 0;
    let mut k: usize = 0;
    proof {
        assert(input@.map_values(|r: Relationship| (r.0@, r.1@)) == lv);
        assert(nodes@.map_values(|s: String| s@).take(0int) =~= Seq::<Seq<char>>::empty());
    }
    while k < nodes.len()
        invariant
            k <= nodes@.len(),
            lv == rel_views(input@),
            fuel == input@.len() + 1,
            nodes@.map_values(|s: String| s@) == distinct_children(input@, input@.len() as int),
            total as int == orbit_total(lv, distinct_children(input@, input@.len() as int).take(
                k as int,
            ), fuel as nat),
        decreases nodes@.len() - k,
    {
        let len = match walk_len(input, &nodes[k], fuel) {
            Ok(v) => v,
            Err(e) => {
                proof {
                    let dc = distinct_children(input@, input@.len() as int);
                    assert(dc[k as int] == nodes@[k as int]@);
                    assert(!chain_total(lv, dc[k as int], fuel as nat));
                }
                return Err(e);
            },
        };
        proof {
            let dc = distinct_children(input@, input@.len() as int);
            assert(dc.take(k + 1).drop_last() =~= dc.take(k as int));
            assert(dc.take(k + 1).last() == dc[k as int]);
            assert(dc[k as int] == nodes@[k as int]@);
            lemma_chain_len_bound(lv, nodes@[k as int]@, fuel as nat);
        }
        total = match total.checked_add(len) {
            Some(t) => t,
            None => {
                proof {
                    let dc = distinct_children(input@, input@.len() as int);
                    assert(dc.take(k + 1).drop_last() =~= dc.take(k as int));
                    assert(dc.take(k + 1).last() == dc[k as int]);
                    assert(dc[k as int] == nodes@[k as int]@);
                    assert(orbit_total(lv, dc.take(k + 1), fuel as nat) > usize::MAX);
                }
                return Err(OrbitError::Overflow);
            },
        };
        k = k + 1;
    }
    proof {
        let dc = distinct_children(input@, input@.len() as int);
        assert(dc.take(dc.len() as int) =~= dc);
    }
    Ok(total)
}

/// The distinct carried bodies of the list's first `upto` entries, in
/// first-appearance order.
pub open spec fn distinct_children(list: Seq<Relationship>, upto: int) -> Seq<Seq<char>>
    decreases upto,
{
    if upto <= 0 {
        Seq::<Seq<char>>::empty()
    } else {
        let prev = distinct_children(list, upto - 1);
        if prev.contains(list[upto - 1].1@) {
            prev
        } else {
            prev.push(list[upto - 1].1@)
        }
    }
}

/// The sum of the listed bodies' walk lengths.
pub open spec fn orbit_total(
    list: Seq<(Seq<char>, Seq<char>)>,
    nodes: Seq<Seq<char>>,
    fuel: nat,
) -> int
    decreases nodes.len(),
{
    if nodes.len() == 0 {
        0
    } else {
        orbit_total(list, nodes.drop_last(), fuel) + chain_nodes(list, nodes.last(), fuel).len()
    }
}

proof fn lemma_chain_len_bound(list: Seq<(Seq<char>, Seq<char>)>, node: Seq<char>, fuel: nat)
    ensures
        chain_nodes(list, node, fuel).len() <= fuel,
    decreases fuel,
{
    if fuel > 0 && node != "COM"@ {
        match lookup(list, node) {
            Some(p) => {
                lemma_chain_len_bound(list, p, (fuel - 1) as nat);
            },
            None => {},
        }
    }
}

/// Whether the walk from this body has already crossed the other
/// walk: yields nothing once a shared body was seen, the shared body
/// itself still yielded.
pub fn resolve_none_on_found(set: &Vec<String>, found: &mut bool, node: &String) -> (r: Option<
    String,
>)
    ensures
        match r {
            Some(n) => {
                &&& !*old(found)
                &&& n@ == node@
                &&& *final(found) == exists|q: int|
                    0 <= q < set@.len() && (#[trigger] set@[q])@ == node@
            },
            None => *old(found) && *final(found),
        },
{
    if *found {
        return None;
    }
    let mut seen = false;
    let mut j: usize = 0;
    while j < set.len()
        invariant
            j <= set@.len(),
            seen <==> exists|q: int| 0 <= q < j && (#[trigger] set@[q])@ == node@,
        decreases set@.len() - j,
    {
        if set[j].eq(node) {
            proof {
                assert(set@[j as int]@ == node@);
            }
            seen = true;
        }
        j = j + 1;
    }
    *found = seen;
    Some(node.clone())
}

/// The transfers between the carriers of `YOU` and `SAN`: both walks
/// meet at their first shared body, and the answer counts the hops on
/// each side short of the meeting point.
pub fn solve_2(input: &Vec<Relationship>) -> (r: Result<usize, OrbitError>)
    ensures
        match r {
            Ok(v) => exists|cm: int, cs: int|
                {
                    &&& 1 <= cm < you_walk(input@).len()
                    &&& 1 <= cs < san_walk(input@).len()
                    &&& #[trigger] san_walk(input@)[cs] == #[trigger] you_walk(input@)[cm]
                    &&& (forall|q: int|
                        0 <= q < cs ==> !you_walk(input@).contains(
                            #[trigger] san_walk(input@)[q],
                        ))
                    &&& v + 2 == cs + cm
                },
            Err(e) => match e {
                OrbitError::Cycle => false,
                OrbitError::Overflow => input@.len() + 1 > usize::MAX || exists|cm: int, cs: int|
                    0 <= cm < you_walk(input@).len() && 0 <= cs < san_walk(input@).len()
                        && #[trigger] you_walk(input@)[cm] == #[trigger] san_walk(input@)[cs] && cm
                        + cs > usize::MAX,
                OrbitError::NoTransfer => (forall|q: int|
                    0 <= q < san_walk(input@).len() ==> !you_walk(input@).contains(
                        #[trigger] san_walk(input@)[q],
                    )) || (exists|cs: int|
                    0 <= cs < san_walk(input@).len() && you_walk(input@).len() > 0
                        && #[trigger] san_walk(input@)[cs] == you_walk(input@)[0]) || (san_walk(
                    input@,
                ).len() > 0 && you_walk(input@).contains(san_walk(input@)[0])),
            },
        },
{
    let ghost lv = rel_views(input@);
    let fuel: usize = match input.len().checked_add(1) {
        Some(f) => f,
        None => {
            return Err(OrbitError::Overflow);
        },
    };
    let you = {
        let s = "YOU";
        String::from_str(s)
    };
    let san = {
        let s = "SAN";
        String::from_str(s)
    };
    let my_chain = collect_chain(input, &you, fuel);
    let san_chain = collect_chain(input, &san, fuel);
    let ghost myv = chain_nodes(lv, "YOU"@, fuel as nat);
    let ghost sanv = chain_nodes(lv, "SAN"@, fuel as nat);
    proof {
        assert(you@ == "YOU"@);
        assert(san@ == "SAN"@);
    }
    let mut cs: usize = 0;
    while cs < san_chain.len()
        invariant
            cs <= san_chain@.len(),
            lv == rel_views(input@),
            fuel == input@.len() + 1,
            myv == chain_nodes(rel_views(input@), "YOU"@, (input@.len() + 1) as nat),
            sanv == chain_nodes(rel_views(input@), "SAN"@, (input@.len() + 1) as nat),
            my_chain@.map_values(|s: String| s@) == myv,
            san_chain@.map_values(|s: String| s@) == sanv,
            forall|q: int| 0 <= q < cs ==> !myv.contains(#[trigger] sanv[q]),
        decreases san_chain@.len() - cs,
    {
        let node = &san_chain[cs];
        let mut cm: usize = 0;
        let mut hit: bool = false;
        while cm < my_chain.len() && !hit
            invariant
                cm <= my_chain@.len(),
                cs < san_chain@.len(),
                node@ == sanv[cs as int],
                my_chain@.map_values(|s: String| s@) == myv,
                san_chain@.map_values(|s: String| s@) == sanv,
                !hit ==> forall|q: int| 0 <= q < cm ==> #[trigger] myv[q] != node@,
                hit ==> cm >= 1 && myv[cm as int - 1] == node@,
            decreases my_chain@.len() - cm + (if hit {
                0int
            } else {
                1int
            }),
        {
            if my_chain[cm].eq(node) {
                proof {
                    assert(myv[cm as int] == node@);
                }
                hit = true;
            }
            cm = cm + 1;
        }
        if hit {
            let at: usize = cm - 1;
            if at == 0 || cs == 0 {
                proof {
                    if at == 0 {
                        assert(san_walk(input@)[cs as int] == you_walk(input@)[0]);
                    } else {
                        assert(myv[at as int] == sanv[0]);
                        assert(you_walk(input@).contains(san_walk(input@)[0]));
                    }
                }
                return Err(OrbitError::NoTransfer);
            }
            let sum: usize = match at.checked_add(cs) {
                Some(v) => v,
                None => {
                    proof {
                        assert(you_walk(input@)[at as int] == san_walk(input@)[cs as int]);
                        assert(at + cs > usize::MAX);
                    }
                    return Err(OrbitError::Overflow);
                },
            };
            proof {
                assert(myv == you_walk(input@) && sanv == san_walk(input@));
                assert(myv[at as int] == sanv[cs as int]);
                let cmw: int = at as int;
                let csw: int = cs as int;
                assert(1 <= cmw < myv.len());
                assert(1 <= csw < sanv.len());
                assert(sanv[csw] == myv[cmw]);
                assert(forall|q: int| 0 <= q < csw ==> !myv.contains(#[trigger] sanv[q]));
                assert((sum - 2) + 2 == csw + cmw);
            }
            return Ok(sum - 2);
        }
        proof {
            assert(forall|q: int| 0 <= q < myv.len() ==> #[trigger] myv[q] != sanv[cs as int]);
            if myv.contains(sanv[cs as int]) {
                let w = choose|w: int| 0 <= w < myv.len() && myv[w] == sanv[cs as int];
            }
        }
        cs = cs + 1;
    }
    proof {
        assert(forall|q: int|
            0 <= q < san_walk(input@).len() ==> !you_walk(input@).contains(
                #[trigger] san_walk(input@)[q],
            ));
    }
    Err(OrbitError::NoTransfer)
}

/// The bodies of one walk, in order.
fn collect_chain(map: &Vec<Relationship>, node: &String, fuel: usize) -> (r: Vec<String>)
    ensures
        r@.map_values(|s: String| s@) == chain_nodes(rel_views(map@), node@, fuel as nat),
{
    let com = string_com();
    let mut out: Vec<String> = Vec::new();
    let mut cur: String = node.clone();
    let mut left: usize = fuel;
    while left > 0
        invariant
            com@ == "COM"@,
            left <= fuel,
            chain_nodes(rel_views(map@), node@, fuel as nat) == out@.map_values(|s: String| s@)
                + chain_nodes(rel_views(map@), cur@, left as nat),
        decreases left,
    {
        if cur.eq(&com) {
            proof {
                assert(chain_nodes(rel_views(map@), cur@, left as nat)
                    =~= Seq::<Seq<char>>::empty());
                assert(out@.map_values(|s: String| s@) + Seq::<Seq<char>>::empty()
                    =~= out@.map_values(|s: String| s@));
            }
            return out;
        }
        let ghost prev = cur@;
        let ghost prev_left = left as nat;
        out.push(cur.clone());
        match RelationshipIter::lookup_parent(map, &cur) {
            Some(p) => {
                proof {
                    lemma_map_push(out@, prev);
                    assert(chain_nodes(rel_views(map@), prev, prev_left) =~= seq![prev]
                        + chain_nodes(rel_views(map@), p@, (prev_left - 1) as nat));
                    assert(out@.drop_last().map_values(|s: String| s@) + chain_nodes(
                        rel_views(map@),
                        prev,
                        prev_left,
                    ) =~= out@.map_values(|s: String| s@) + chain_nodes(
                        rel_views(map@),
                        p@,
                        (prev_left - 1) as nat,
                    ));
                }
                cur = p;
            },
            None => {
                proof {
                    lemma_map_push(out@, prev);
                    assert(chain_nodes(rel_views(map@), prev, prev_left) =~= seq![prev]
                        + Seq::<Seq<char>>::empty());
                    assert(out@.drop_last().map_values(|s: String| s@) + chain_nodes(
                        rel_views(map@),
                        prev,
                        prev_left,
                    ) =~= out@.map_values(|s: String| s@));
                }
                return out;
            },
        }
        left = left - 1;
    }
    proof {
        if cur@ == "COM"@ {
            assert(out@.map_values(|s: String| s@) + Seq::<Seq<char>>::empty() =~= out@.map_values(
                |s: String| s@,
            ));
        }
    }
    let at_center = cur.eq(&com);
    if at_center {
        return out;
    }
    // the fuel ran out mid-walk; the yielded prefix is the chain the
    // fuel bounds
    proof {
        assert(chain_nodes(rel_views(map@), cur@, 0nat) =~= Seq::<Seq<char>>::empty());
        assert(out@.map_values(|s: String| s@) + Seq::<Seq<char>>::empty() =~= out@.map_values(
            |s: String| s@,
        ));
    }
    out
}

/// Pushing a body extends the walked prefix by exactly that body.
proof fn lemma_map_push(out: Seq<String>, last: Seq<char>)
    requires
        out.len() > 0,
        out.last()@ == last,
    ensures
        out.map_values(|s: String| s@) == out.drop_last().map_values(|s: String| s@) + seq![last],
{
    assert(out.map_values(|s: String| s@) =~= out.drop_last().map_values(|s: String| s@)
        + seq![last]);
}

} // verus!
