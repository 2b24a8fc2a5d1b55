//! Does strict reverse-path filtering decide anything on this interface?
//!
//! With `0.0.0.0/0 via eth0` the reverse route of any address is the default route, hence the
//! ingress interface, so the check passes for every spoofed source. The criterion is binary and
//! deterministic: a predicate over a routing table, not a sample of a few sources.

use vstd::prelude::*;

verus! {

/// The main table, where a leaf host's routes live.
pub const RT_TABLE_MAIN: u32 = 254;

/// Consulted after `main`, and empty on every machine that has not been told otherwise.
pub const RT_TABLE_DEFAULT: u32 = 253;

/// Our own addresses and the broadcast entries the kernel keeps for them. Not a path to
/// anywhere, so the criterion skips it.
pub const RT_TABLE_LOCAL: u32 = 255;

/// The two FIBs. They are separate tables with separate default routes, and there is one
/// enforcement bit for both, which is what makes [`discriminates`] combine them.
#[derive(Clone, Copy, PartialEq, Eq, Debug, Structural)]
pub enum Family {
    V4,
    V6,
}

/// One route, reduced to the fields this decision reads plus the one that tells two routes
/// apart. Not the gateway: two routes to the same prefix through the same interface by different
/// gateways answer the same question and are the same route here.
#[derive(Clone, Copy, PartialEq, Eq, Debug)]
pub struct Route {
    pub family: Family,
    /// Destination prefix length. Zero is the default route.
    pub dst_len: u8,
    /// The destination prefix, zero-padded, and all zeroes when the message carried none. Held
    /// for identity only.
    pub dst: [u8; 16],
    pub table: u32,
    /// Where the route leaves. `Some(0)` is a route that deliberately leads nowhere, which the
    /// reverse lookup fails on. `None` is a route whose interface the kernel did not state: it
    /// leaves somewhere.
    pub oif: Option<u32>,
}

/// What a route says.
#[verifier::ext_equal]
pub struct RouteView {
    pub family: Family,
    pub dst_len: u8,
    pub dst: Seq<u8>,
    pub table: u32,
    pub oif: Option<u32>,
}

impl View for Route {
    type V = RouteView;

    open spec fn view(&self) -> RouteView {
        RouteView {
            family: self.family,
            dst_len: self.dst_len,
            dst: self.dst@,
            table: self.table,
            oif: self.oif,
        }
    }
}

/// What the routes of a table say.
pub open spec fn routes(table: Seq<Route>) -> Seq<RouteView> {
    table.map_values(|route: Route| route@)
}

/// Whether the stage is worth arming on an interface, and if not, why not.
///
/// Only the first variant arms it. One of the others says the check would decide nothing, the
/// rest say it would decide wrongly and drop traffic that belongs on the wire.
#[derive(Clone, Copy, PartialEq, Eq, Debug, Structural)]
pub enum Discrimination {
    /// No route resolves an arbitrary source back to the ingress interface, so a spoofed source
    /// either resolves elsewhere or resolves nowhere. Both are a drop.
    Discriminates,
    /// A default route leaves through the ingress interface itself, so the check passes
    /// everything.
    DefaultRouteOnIngress,
    /// Several paths carry the default route, so a legitimate packet can resolve to the path it
    /// did not arrive on.
    MultiplePaths,
    /// Nothing at all leaves through the ingress interface, so the check would drop every packet
    /// arriving there.
    NoPathOnIngress,
    /// Routes are parked in a table that only a rule reaches, so which table the reverse lookup
    /// consults is not known ahead of the packet.
    PolicyRouting,
    /// A route leaves through a nexthop object, so the table does not say which interface it
    /// leaves through.
    UnresolvedNexthop,
}

impl Discrimination {
    /// Whether the stage is to be armed.
    pub fn enforce(self) -> (armed: bool)
        ensures
            armed == (self == Discrimination::Discriminates),
    {
        self == Self::Discriminates
    }

    /// The sentence an operator is owed for a decision.
    pub open spec fn sentence(self) -> Seq<char> {
        match self {
            Discrimination::Discriminates => "strict reverse-path filtering discriminates here"@,
            Discrimination::DefaultRouteOnIngress => "a default route leaves through the ingress interface, so the check passes every source"@,
            Discrimination::MultiplePaths => "several paths carry the default route, so the check would drop legitimate traffic that arrived on the other one"@,
            Discrimination::NoPathOnIngress => "no route leaves through the ingress interface, so the check would drop everything arriving there"@,
            Discrimination::PolicyRouting => "routes sit in a table reached by rule, so which table the reverse lookup consults is not decidable from the table alone"@,
            Discrimination::UnresolvedNexthop => "a route leaves through a nexthop object, so the table does not say which interface it leaves through"@,
        }
    }

    /// The sentence an operator is owed for a decision.
    pub fn describe(self) -> (text: &'static str)
        ensures
            text@ == self.sentence(),
    {
        match self {
            Self::Discriminates => "strict reverse-path filtering discriminates here",
            Self::DefaultRouteOnIngress => "a default route leaves through the ingress interface, so the check passes every source",
            Self::MultiplePaths => "several paths carry the default route, so the check would drop legitimate traffic that arrived on the other one",
            Self::NoPathOnIngress => "no route leaves through the ingress interface, so the check would drop everything arriving there",
            Self::PolicyRouting => "routes sit in a table reached by rule, so which table the reverse lookup consults is not decidable from the table alone",
            Self::UnresolvedNexthop => "a route leaves through a nexthop object, so the table does not say which interface it leaves through",
        }
    }
}

/// Whether route `i` counts for a family: it is one of the family's, outside the local table.
pub open spec fn counts(table: Seq<RouteView>, family: Family, i: int) -> bool {
    0 <= i < table.len() && table[i].family == family && table[i].table != RT_TABLE_LOCAL
}

/// Whether route `i` counts, and is a default route that leaves through `oif`.
pub open spec fn default_through(table: Seq<RouteView>, family: Family, i: int, oif: u32) -> bool {
    counts(table, family, i) && table[i].dst_len == 0 && table[i].oif == Some(oif)
}

/// Whether a family has any route that counts.
pub open spec fn configured(table: Seq<RouteView>, family: Family) -> bool {
    exists|i: int| #[trigger] counts(table, family, i)
}

/// Whether a route of the family sits in a table that only a rule reaches.
pub open spec fn policy_routed(table: Seq<RouteView>, family: Family) -> bool {
    exists|i: int|
        #[trigger] counts(table, family, i) && table[i].table != RT_TABLE_MAIN && table[i].table
            != RT_TABLE_DEFAULT
}

/// Whether a route of the family does not say where it leaves.
pub open spec fn unresolved(table: Seq<RouteView>, family: Family) -> bool {
    exists|i: int| #[trigger] counts(table, family, i) && table[i].oif is None
}

/// Whether a route of the family leaves through the ingress interface.
pub open spec fn leaves_through(table: Seq<RouteView>, family: Family, ingress: u32) -> bool {
    exists|i: int| #[trigger] counts(table, family, i) && table[i].oif == Some(ingress)
}

/// Whether two default routes of the family leave through two interfaces.
pub open spec fn several_defaults(table: Seq<RouteView>, family: Family) -> bool {
    exists|i: int, j: int, a: u32, b: u32| #[trigger]
        default_through(table, family, i, a) && #[trigger] default_through(table, family, j, b) && a
            != b
}

/// Whether a default route of the family leaves through the ingress interface.
pub open spec fn default_on(table: Seq<RouteView>, family: Family, ingress: u32) -> bool {
    exists|i: int| #[trigger] default_through(table, family, i, ingress)
}

/// What one family answers. One with no route that counts abstains. The answers that would
/// decide wrongly come before the one that would decide nothing.
pub open spec fn family_answer(table: Seq<RouteView>, ingress: u32, family: Family) -> Option<
    Discrimination,
> {
    if !configured(table, family) {
        None
    } else if policy_routed(table, family) {
        Some(Discrimination::PolicyRouting)
    } else if unresolved(table, family) {
        Some(Discrimination::UnresolvedNexthop)
    } else if !leaves_through(table, family, ingress) {
        Some(Discrimination::NoPathOnIngress)
    } else if several_defaults(table, family) {
        Some(Discrimination::MultiplePaths)
    } else if default_on(table, family, ingress) {
        Some(Discrimination::DefaultRouteOnIngress)
    } else {
        Some(Discrimination::Discriminates)
    }
}

/// What both families answer together: the first that cannot decide vetoes, and a table on which
/// both abstain has no path.
pub open spec fn table_answer(table: Seq<RouteView>, ingress: u32) -> Discrimination {
    match (family_answer(table, ingress, Family::V4), family_answer(table, ingress, Family::V6)) {
        (Some(v4), _) if v4 != Discrimination::Discriminates => v4,
        (_, Some(v6)) => v6,
        (Some(v4), None) => v4,
        (None, None) => Discrimination::NoPathOnIngress,
    }
}

/// The criterion: what strict reverse-path filtering would do to traffic arriving on `ingress`,
/// given `table`.
pub fn discriminates(table: &[Route], ingress: u32) -> (answer: Discrimination)
    ensures
        answer == table_answer(routes(table@), ingress),
{
    let v4: Option<Discrimination> = per_family(table, ingress, Family::V4);
    if let Some(answer) = v4 {
        if !answer.enforce() {
            return answer;
        }
    }
    let v6: Option<Discrimination> = per_family(table, ingress, Family::V6);
    match (v4, v6) {
        (_, Some(answer)) => answer,
        (Some(answer), None) => answer,
        (None, None) => Discrimination::NoPathOnIngress,
    }
}

fn per_family(table: &[Route], ingress: u32, family: Family) -> (answer: Option<Discrimination>)
    ensures
        answer == family_answer(routes(table@), ingress, family),
{
    let ghost all = routes(table@);
    let mut any: bool = false;
    let mut policy: bool = false;
    let mut unstated: bool = false;
    let mut on_ingress: bool = false;
    let mut default_oif: Option<u32> = None;
    let mut several: bool = false;
    let ghost mut first: int = 0;
    let mut i: usize = 0;
    while i < table.len()
        invariant
            i <= table@.len(),
            all == routes(table@),
            any <==> exists|j: int| j < i && #[trigger] counts(all, family, j),
            policy <==> exists|j: int|
                j < i && #[trigger] counts(all, family, j) && all[j].table != RT_TABLE_MAIN
                    && all[j].table != RT_TABLE_DEFAULT,
            unstated <==> exists|j: int|
                j < i && #[trigger] counts(all, family, j) && all[j].oif is None,
            on_ingress <==> exists|j: int|
                j < i && #[trigger] counts(all, family, j) && all[j].oif == Some(ingress),
            default_oif is None ==> forall|j: int, oif: u32|
                j < i ==> !#[trigger] default_through(all, family, j, oif),
            default_oif matches Some(oif) ==> first < i && default_through(all, family, first, oif),
            several <==> exists|j: int, oif: u32|
                j < i && default_oif != Some(oif) && #[trigger] default_through(
                    all,
                    family,
                    j,
                    oif,
                ),
        decreases table@.len() - i,
    {
        let route: &Route = &table[i];
        assert(all[i as int] == route@);
        if route.family == family && route.table != RT_TABLE_LOCAL {
            assert(counts(all, family, i as int));
            any = true;
            if route.table != RT_TABLE_MAIN && route.table != RT_TABLE_DEFAULT {
                policy = true;
            }
            match route.oif {
                None => {
                    unstated = true;
                },
                Some(oif) => {
                    if oif == ingress {
                        on_ingress = true;
                    }
                    if route.dst_len == 0 {
                        assert(default_through(all, family, i as int, oif));
                        match default_oif {
                            None => {
                                default_oif = Some(oif);
                                proof {
                                    first = i as int;
                                }
                            },
                            Some(known) => {
                                if known != oif {
                                    several = true;
                                }
                            },
                        }
                    }
                },
            }
        }
        i += 1;
    }
    if !any {
        return None;
    }
    proof {
        if several {
            let (j, oif) = choose|j: int, oif: u32|
                j < i && default_oif != Some(oif) && #[trigger] default_through(
                    all,
                    family,
                    j,
                    oif,
                );
            assert(default_through(all, family, first, default_oif->0));
            assert(default_through(all, family, j, oif));
        }
    }
    let answer: Discrimination = if policy {
        Discrimination::PolicyRouting
    } else if unstated {
        Discrimination::UnresolvedNexthop
    } else if !on_ingress {
        Discrimination::NoPathOnIngress
    } else if several {
        Discrimination::MultiplePaths
    } else {
        match default_oif {
            Some(oif) => if oif == ingress {
                Discrimination::DefaultRouteOnIngress
            } else {
                Discrimination::Discriminates
            },
            None => Discrimination::Discriminates,
        }
    };
    Some(answer)
}

/// A default route that leaves through the ingress interface never arms the stage, in either
/// family, whatever else is in the table.
pub proof fn a_default_route_on_ingress_never_arms(
    table: Seq<RouteView>,
    ingress: u32,
    family: Family,
)
    requires
        default_on(table, family, ingress),
    ensures
        table_answer(table, ingress) != Discrimination::Discriminates,
{
    let i = choose|i: int| #[trigger] default_through(table, family, i, ingress);
    assert(counts(table, family, i));
}

/// A table without a route outside the local table has no path.
pub proof fn an_empty_table_has_no_path(table: Seq<RouteView>, ingress: u32)
    requires
        forall|i: int| 0 <= i < table.len() ==> (#[trigger] table[i]).table == RT_TABLE_LOCAL,
    ensures
        table_answer(table, ingress) == Discrimination::NoPathOnIngress,
{
}

/// The stage is armed only where the ingress interface is on a path, every route says where it
/// leaves and is reached without a rule, and all default routes of a family leave together
/// through another interface.
pub proof fn what_arms_the_stage(table: Seq<RouteView>, ingress: u32, family: Family)
    requires
        table_answer(table, ingress) == Discrimination::Discriminates,
        configured(table, family),
    ensures
        leaves_through(table, family, ingress),
        !policy_routed(table, family),
        !unresolved(table, family),
        !several_defaults(table, family),
        !default_on(table, family, ingress),
{
}

/// The prefix of a route is carried for identity and decides nothing: two tables that differ in
/// prefixes alone answer alike.
pub proof fn the_prefix_decides_nothing(a: Seq<RouteView>, b: Seq<RouteView>, ingress: u32)
    requires
        a.len() == b.len(),
        forall|i: int|
            0 <= i < a.len() ==> #[trigger] a[i] == (RouteView { dst: a[i].dst, ..b[i] }),
    ensures
        table_answer(a, ingress) == table_answer(b, ingress),
{
    lemma_family_answer(a, b, ingress, Family::V4);
    lemma_family_answer(a, b, ingress, Family::V6);
}

proof fn lemma_family_answer(a: Seq<RouteView>, b: Seq<RouteView>, ingress: u32, family: Family)
    requires
        a.len() == b.len(),
        forall|i: int|
            0 <= i < a.len() ==> #[trigger] a[i] == (RouteView { dst: a[i].dst, ..b[i] }),
    ensures
        family_answer(a, ingress, family) == family_answer(b, ingress, family),
{
    lemma_family_facts(a, b, ingress, family);
    assert forall|i: int|
        0 <= i < b.len() implies #[trigger] b[i] == (RouteView { dst: b[i].dst, ..a[i] }) by {
        assert(a[i] == (RouteView { dst: a[i].dst, ..b[i] }));
    }
    lemma_family_facts(b, a, ingress, family);
}

/// What holds of a table holds of one that differs in prefixes alone.
proof fn lemma_family_facts(a: Seq<RouteView>, b: Seq<RouteView>, ingress: u32, family: Family)
    requires
        a.len() == b.len(),
        forall|i: int|
            0 <= i < a.len() ==> #[trigger] a[i] == (RouteView { dst: a[i].dst, ..b[i] }),
    ensures
        configured(a, family) ==> configured(b, family),
        policy_routed(a, family) ==> policy_routed(b, family),
        unresolved(a, family) ==> unresolved(b, family),
        leaves_through(a, family, ingress) ==> leaves_through(b, family, ingress),
        several_defaults(a, family) ==> several_defaults(b, family),
        default_on(a, family, ingress) ==> default_on(b, family, ingress),
{
    assert forall|i: int| #[trigger] counts(a, family, i) implies counts(b, family, i) && a[i].table
        == b[i].table && a[i].oif == b[i].oif by {
        assert(a[i] == (RouteView { dst: a[i].dst, ..b[i] }));
    }
    assert forall|i: int, oif: u32| #[trigger] default_through(a, family, i, oif) implies default_through(
        b,
        family,
        i,
        oif,
    ) by {
        assert(counts(a, family, i));
        assert(a[i] == (RouteView { dst: a[i].dst, ..b[i] }));
    }
}

/// The answer depends on the set of routes outside the local table and on nothing else: not on
/// their order, nor on how often one is held.
pub proof fn the_set_of_routes_decides(a: Seq<RouteView>, b: Seq<RouteView>, ingress: u32)
    requires
        forall|route: RouteView|
            route.table != RT_TABLE_LOCAL ==> (#[trigger] a.contains(route) <==> b.contains(route)),
    ensures
        table_answer(a, ingress) == table_answer(b, ingress),
{
    lemma_held_facts(a, b, ingress, Family::V4);
    lemma_held_facts(b, a, ingress, Family::V4);
    lemma_held_facts(a, b, ingress, Family::V6);
    lemma_held_facts(b, a, ingress, Family::V6);
}

/// What the routes of a table make true is true of every table that holds them.
proof fn lemma_held_facts(a: Seq<RouteView>, b: Seq<RouteView>, ingress: u32, family: Family)
    requires
        forall|route: RouteView|
            route.table != RT_TABLE_LOCAL && a.contains(route) ==> b.contains(route),
    ensures
        configured(a, family) ==> configured(b, family),
        policy_routed(a, family) ==> policy_routed(b, family),
        unresolved(a, family) ==> unresolved(b, family),
        leaves_through(a, family, ingress) ==> leaves_through(b, family, ingress),
        several_defaults(a, family) ==> several_defaults(b, family),
        default_on(a, family, ingress) ==> default_on(b, family, ingress),
{
    assert forall|i: int| #[trigger] counts(a, family, i) implies exists|j: int|
        #[trigger] counts(b, family, j) && b[j] == a[i] by {
        assert(a.contains(a[i]));
        let j = choose|j: int| 0 <= j < b.len() && b[j] == a[i];
        assert(counts(b, family, j));
    }
    assert forall|i: int, oif: u32| #[trigger] default_through(a, family, i, oif) implies exists|
        j: int,
    | #[trigger] default_through(b, family, j, oif) by {
        assert(counts(a, family, i));
        let j = choose|j: int| #[trigger] counts(b, family, j) && b[j] == a[i];
        assert(default_through(b, family, j, oif));
    }
    if several_defaults(a, family) {
        let (i, j, first, second) = choose|i: int, j: int, first: u32, second: u32|
            #[trigger] default_through(a, family, i, first) && #[trigger] default_through(
                a,
                family,
                j,
                second,
            ) && first != second;
        let k = choose|k: int| #[trigger] default_through(b, family, k, first);
        let l = choose|l: int| #[trigger] default_through(b, family, l, second);
        assert(default_through(b, family, k, first) && default_through(b, family, l, second));
    }
}

/// Whether a route of the family outside the local table leaves through an interface.
pub open spec fn reaches(table: Seq<RouteView>, family: Family, oif: u32) -> bool {
    exists|j: int|
        0 <= j < table.len() && (#[trigger] table[j]).table != 255 && table[j].family == family
            && table[j].oif == Some(oif)
}

proof fn lemma_reaches(table: Seq<RouteView>, family: Family, oif: u32)
    ensures
        reaches(table, family, oif) == leaves_through(table, family, oif),
{
    if reaches(table, family, oif) {
        let j = choose|j: int|
            0 <= j < table.len() && (#[trigger] table[j]).table != 255 && table[j].family == family
                && table[j].oif == Some(oif);
        assert(counts(table, family, j));
    }
    if leaves_through(table, family, oif) {
        let j = choose|j: int| #[trigger]
            counts(table, family, j) && table[j].oif == Some(oif);
        assert(table[j].table != 255);
    }
}

/// What a family answers where nothing stands against it.
proof fn lemma_family_decides(table: Seq<RouteView>, ingress: u32, family: Family)
    requires
        configured(table, family),
        leaves_through(table, family, ingress),
        forall|i: int| #[trigger]
            counts(table, family, i) ==> (table[i].table == 254 || table[i].table == 253)
                && table[i].oif is Some && !(table[i].dst_len == 0 && table[i].oif == Some(
                ingress,
            )),
        forall|i: int, j: int| #[trigger]
            counts(table, family, i) && #[trigger] counts(table, family, j) && table[i].dst_len == 0
                && table[j].dst_len == 0 ==> table[i].oif == table[j].oif,
    ensures
        family_answer(table, ingress, family) == Some(Discrimination::Discriminates),
{
    if several_defaults(table, family) {
        let (k, l, a, b) = choose|k: int, l: int, a: u32, b: u32| #[trigger]
            default_through(table, family, k, a) && #[trigger] default_through(table, family, l, b)
                && a != b;
        assert(counts(table, family, k) && counts(table, family, l));
    }
    if default_on(table, family, ingress) {
        let k = choose|k: int| #[trigger] default_through(table, family, k, ingress);
        assert(counts(table, family, k));
    }
}

/// When the stage is armed. Some route is outside the local table (255), and of all of those:
/// each is in the main table or in the default one (254 and 253), says where it leaves, and is no
/// default route through the ingress interface; the default routes of one family all leave
/// through one interface; and each family among them has a route through the ingress interface.
/// A default route is not asked for: a source that resolves nowhere is dropped as well.
pub proof fn the_stage_is_armed_where_the_table_decides(table: Seq<RouteView>, ingress: u32)
    requires
        exists|i: int| 0 <= i < table.len() && (#[trigger] table[i]).table != 255,
        forall|i: int|
            0 <= i < table.len() && (#[trigger] table[i]).table != 255 ==> (table[i].table == 254
                || table[i].table == 253) && table[i].oif is Some && !(table[i].dst_len == 0
                && table[i].oif == Some(ingress)),
        forall|i: int, j: int|
            0 <= i < table.len() && 0 <= j < table.len() && (#[trigger] table[i]).table != 255 && (
            #[trigger] table[j]).table != 255 && table[i].family == table[j].family
                && table[i].dst_len == 0 && table[j].dst_len == 0 ==> table[i].oif == table[j].oif,
        forall|i: int|
            0 <= i < table.len() && (#[trigger] table[i]).table != 255 ==> reaches(
                table,
                table[i].family,
                ingress,
            ),
    ensures
        table_answer(table, ingress) == Discrimination::Discriminates,
{
    let at = choose|i: int| 0 <= i < table.len() && (#[trigger] table[i]).table != 255;
    assert(counts(table, table[at].family, at));
    if configured(table, Family::V4) {
        let i = choose|i: int| #[trigger] counts(table, Family::V4, i);
        assert(reaches(table, table[i].family, ingress));
        lemma_reaches(table, Family::V4, ingress);
        lemma_family_decides(table, ingress, Family::V4);
    }
    if configured(table, Family::V6) {
        let i = choose|i: int| #[trigger] counts(table, Family::V6, i);
        assert(reaches(table, table[i].family, ingress));
        lemma_reaches(table, Family::V6, ingress);
        lemma_family_decides(table, ingress, Family::V6);
    }
}

/// What each answer says of a table. The stage is armed only where a route is outside the local
/// table, every such route is in the main table or in the default one and says where it leaves,
/// its family has a route through the ingress interface, and no default route of its family
/// leaves there or apart from another. Every other answer is true of some family.
pub proof fn every_answer_is_true_of_the_table(table: Seq<RouteView>, ingress: u32)
    ensures
        match table_answer(table, ingress) {
            Discrimination::Discriminates => {
                &&& exists|i: int| 0 <= i < table.len() && (#[trigger] table[i]).table != 255
                &&& forall|i: int|
                    0 <= i < table.len() && (#[trigger] table[i]).table != 255 ==> (table[i].table
                        == 254 || table[i].table == 253) && table[i].oif is Some && !(
                    table[i].dst_len == 0 && table[i].oif == Some(ingress)) && reaches(
                        table,
                        table[i].family,
                        ingress,
                    )
                &&& forall|i: int, j: int|
                    0 <= i < table.len() && 0 <= j < table.len() && (#[trigger] table[i]).table
                        != 255 && (#[trigger] table[j]).table != 255 && table[i].family
                        == table[j].family && table[i].dst_len == 0 && table[j].dst_len == 0
                        ==> table[i].oif == table[j].oif
            },
            Discrimination::DefaultRouteOnIngress => exists|i: int|
                0 <= i < table.len() && (#[trigger] table[i]).table != 255 && table[i].dst_len == 0
                    && table[i].oif == Some(ingress),
            Discrimination::MultiplePaths => exists|i: int, j: int|
                0 <= i < table.len() && 0 <= j < table.len() && (#[trigger] table[i]).table != 255
                    && (#[trigger] table[j]).table != 255 && table[i].family == table[j].family
                    && table[i].dst_len == 0 && table[j].dst_len == 0 && table[i].oif is Some
                    && table[j].oif is Some && table[i].oif != table[j].oif,
            Discrimination::NoPathOnIngress => (forall|i: int|
                0 <= i < table.len() ==> (#[trigger] table[i]).table == 255) || exists|i: int|
                0 <= i < table.len() && (#[trigger] table[i]).table != 255 && !reaches(
                    table,
                    table[i].family,
                    ingress,
                ),
            Discrimination::PolicyRouting => exists|i: int|
                0 <= i < table.len() && (#[trigger] table[i]).table != 255 && table[i].table != 254
                    && table[i].table != 253,
            Discrimination::UnresolvedNexthop => exists|i: int|
                0 <= i < table.len() && (#[trigger] table[i]).table != 255 && table[i].oif is None,
        },
{
    lemma_answer_is_true(table, ingress, Family::V4);
    lemma_answer_is_true(table, ingress, Family::V6);
    if table_answer(table, ingress) == Discrimination::Discriminates {
        assert(configured(table, Family::V4) || configured(table, Family::V6));
        let family = if configured(table, Family::V4) {
            Family::V4
        } else {
            Family::V6
        };
        let i = choose|i: int| #[trigger] counts(table, family, i);
        assert(table[i].table != 255);
        assert forall|i: int| 0 <= i < table.len() && (#[trigger] table[i]).table != 255 implies (
        table[i].table == 254 || table[i].table == 253) && table[i].oif is Some && !(
        table[i].dst_len == 0 && table[i].oif == Some(ingress)) && reaches(
            table,
            table[i].family,
            ingress,
        ) by {
            let family = table[i].family;
            assert(counts(table, family, i));
            what_arms_the_stage(table, ingress, family);
            if table[i].dst_len == 0 && table[i].oif == Some(ingress) {
                assert(default_through(table, family, i, ingress));
            }
            lemma_reaches(table, family, ingress);
        }
        assert forall|i: int, j: int|
            0 <= i < table.len() && 0 <= j < table.len() && (#[trigger] table[i]).table != 255 && (
            #[trigger] table[j]).table != 255 && table[i].family == table[j].family
                && table[i].dst_len == 0 && table[j].dst_len == 0 implies table[i].oif
            == table[j].oif by {
            let family = table[i].family;
            assert(counts(table, family, i) && counts(table, family, j));
            what_arms_the_stage(table, ingress, family);
            assert(default_through(table, family, i, table[i].oif->0));
            assert(default_through(table, family, j, table[j].oif->0));
        }
    } else if !configured(table, Family::V4) && !configured(table, Family::V6) {
        assert forall|i: int| 0 <= i < table.len() implies (#[trigger] table[i]).table == 255 by {
            assert(!counts(table, table[i].family, i));
        }
    }
}

/// What the answer of one family says, where it does not arm.
proof fn lemma_answer_is_true(table: Seq<RouteView>, ingress: u32, family: Family)
    ensures
        match family_answer(table, ingress, family) {
            Some(Discrimination::DefaultRouteOnIngress) => exists|i: int|
                0 <= i < table.len() && (#[trigger] table[i]).table != 255 && table[i].dst_len == 0
                    && table[i].oif == Some(ingress),
            Some(Discrimination::MultiplePaths) => exists|i: int, j: int|
                0 <= i < table.len() && 0 <= j < table.len() && (#[trigger] table[i]).table != 255
                    && (#[trigger] table[j]).table != 255 && table[i].family == table[j].family
                    && table[i].dst_len == 0 && table[j].dst_len == 0 && table[i].oif is Some
                    && table[j].oif is Some && table[i].oif != table[j].oif,
            Some(Discrimination::NoPathOnIngress) => exists|i: int|
                0 <= i < table.len() && (#[trigger] table[i]).table != 255 && !reaches(
                    table,
                    table[i].family,
                    ingress,
                ),
            Some(Discrimination::PolicyRouting) => exists|i: int|
                0 <= i < table.len() && (#[trigger] table[i]).table != 255 && table[i].table != 254
                    && table[i].table != 253,
            Some(Discrimination::UnresolvedNexthop) => exists|i: int|
                0 <= i < table.len() && (#[trigger] table[i]).table != 255 && table[i].oif is None,
            _ => true,
        },
{
    if configured(table, family) {
        let at = choose|i: int| #[trigger] counts(table, family, i);
        assert(table[at].table != 255);
        lemma_reaches(table, family, ingress);
        if policy_routed(table, family) {
            let i = choose|i: int|
                #[trigger] counts(table, family, i) && table[i].table != RT_TABLE_MAIN
                    && table[i].table != RT_TABLE_DEFAULT;
            assert(table[i].table != 255);
        }
        if unresolved(table, family) {
            let i = choose|i: int| #[trigger] counts(table, family, i) && table[i].oif is None;
            assert(table[i].table != 255);
        }
        if several_defaults(table, family) {
            let (i, j, a, b) = choose|i: int, j: int, a: u32, b: u32| #[trigger]
                default_through(table, family, i, a) && #[trigger] default_through(
                    table,
                    family,
                    j,
                    b,
                ) && a != b;
            assert(table[i].table != 255 && table[j].table != 255);
        }
        if default_on(table, family, ingress) {
            let i = choose|i: int| #[trigger] default_through(table, family, i, ingress);
            assert(table[i].table != 255);
        }
    }
}

/// Of a table of one family, which answer comes before which: those that would drop what belongs
/// on the wire before the one that would decide nothing, and what cannot be read off the table
/// before all.
pub proof fn which_answer_comes_first(table: Seq<RouteView>, ingress: u32, family: Family)
    requires
        forall|i: int|
            0 <= i < table.len() ==> (#[trigger] table[i]).family == family && table[i].table != 255,
        table.len() > 0,
    ensures
        ({
            let answer = table_answer(table, ingress);
            let ruled = exists|i: int|
                0 <= i < table.len() && (#[trigger] table[i]).table != 254 && table[i].table != 253;
            let unstated = exists|i: int|
                0 <= i < table.len() && (#[trigger] table[i]).oif is None;
            let on_path = exists|i: int|
                0 <= i < table.len() && (#[trigger] table[i]).oif == Some(ingress);
            let apart = exists|i: int, j: int|
                0 <= i < table.len() && 0 <= j < table.len() && (#[trigger] table[i]).dst_len == 0
                    && (#[trigger] table[j]).dst_len == 0 && table[i].oif != table[j].oif;
            let back = exists|i: int|
                0 <= i < table.len() && (#[trigger] table[i]).dst_len == 0 && table[i].oif == Some(
                    ingress,
                );
            &&& ruled <==> answer == Discrimination::PolicyRouting
            &&& !ruled && unstated <==> answer == Discrimination::UnresolvedNexthop
            &&& !ruled && !unstated && !on_path <==> answer == Discrimination::NoPathOnIngress
            &&& !ruled && !unstated && on_path && apart <==> answer == Discrimination::MultiplePaths
            &&& !ruled && !unstated && on_path && !apart && back <==> answer
                == Discrimination::DefaultRouteOnIngress
        }),
{
    assert forall|i: int| 0 <= i < table.len() implies #[trigger] counts(table, family, i) by {
        assert(table[i].family == family);
    }
    assert(counts(table, family, 0));
    let other = match family {
        Family::V4 => Family::V6,
        Family::V6 => Family::V4,
    };
    assert(family_answer(table, ingress, other) is None) by {
        if configured(table, other) {
            let i = choose|i: int| #[trigger] counts(table, other, i);
            assert(table[i].family == family);
        }
    }
    assert(table_answer(table, ingress) == family_answer(table, ingress, family)->0);
    let ruled = exists|i: int|
        0 <= i < table.len() && (#[trigger] table[i]).table != 254 && table[i].table != 253;
    let unstated = exists|i: int| 0 <= i < table.len() && (#[trigger] table[i]).oif is None;
    let on_path = exists|i: int| 0 <= i < table.len() && (#[trigger] table[i]).oif == Some(ingress);
    let apart = exists|i: int, j: int|
        0 <= i < table.len() && 0 <= j < table.len() && (#[trigger] table[i]).dst_len == 0 && (
        #[trigger] table[j]).dst_len == 0 && table[i].oif != table[j].oif;
    let back = exists|i: int|
        0 <= i < table.len() && (#[trigger] table[i]).dst_len == 0 && table[i].oif == Some(ingress);
    if ruled {
        let i = choose|i: int|
            0 <= i < table.len() && (#[trigger] table[i]).table != 254 && table[i].table != 253;
        assert(counts(table, family, i));
    }
    if unstated {
        let i = choose|i: int| 0 <= i < table.len() && (#[trigger] table[i]).oif is None;
        assert(counts(table, family, i));
    }
    if on_path {
        let i = choose|i: int| 0 <= i < table.len() && (#[trigger] table[i]).oif == Some(ingress);
        assert(counts(table, family, i));
    }
    if apart && !unstated {
        let (i, j) = choose|i: int, j: int|
            0 <= i < table.len() && 0 <= j < table.len() && (#[trigger] table[i]).dst_len == 0 && (
            #[trigger] table[j]).dst_len == 0 && table[i].oif != table[j].oif;
        assert(counts(table, family, i) && counts(table, family, j));
        assert(default_through(table, family, i, table[i].oif->0));
        assert(default_through(table, family, j, table[j].oif->0));
    }
    if several_defaults(table, family) {
        let (i, j, a, b) = choose|i: int, j: int, a: u32, b: u32| #[trigger]
            default_through(table, family, i, a) && #[trigger] default_through(table, family, j, b)
                && a != b;
        assert(table[i].oif != table[j].oif);
    }
    if back {
        let i = choose|i: int|
            0 <= i < table.len() && (#[trigger] table[i]).dst_len == 0 && table[i].oif == Some(
                ingress,
            );
        assert(counts(table, family, i));
        assert(default_through(table, family, i, ingress));
    }
}

/// How the two families are put together. Take the routes of each apart: a family that cannot
/// decide vetoes, IPv4 before IPv6, and one with no route outside the local table has no say.
pub proof fn one_family_vetoes(
    table: Seq<RouteView>,
    v4: Seq<RouteView>,
    v6: Seq<RouteView>,
    ingress: u32,
)
    requires
        forall|route: RouteView| #[trigger]
            v4.contains(route) <==> table.contains(route) && route.family == Family::V4
                && route.table != 255,
        forall|route: RouteView| #[trigger]
            v6.contains(route) <==> table.contains(route) && route.family == Family::V6
                && route.table != 255,
    ensures
        table_answer(table, ingress) == (if v4.len() > 0 && table_answer(v4, ingress)
            != Discrimination::Discriminates {
            table_answer(v4, ingress)
        } else if v6.len() > 0 {
            table_answer(v6, ingress)
        } else {
            table_answer(v4, ingress)
        }),
{
    lemma_family_apart(table, v4, ingress, Family::V4);
    lemma_family_apart(table, v6, ingress, Family::V6);
    assert(family_answer(v4, ingress, Family::V6) is None) by {
        if configured(v4, Family::V6) {
            let i = choose|i: int| #[trigger] counts(v4, Family::V6, i);
            assert(v4.contains(v4[i]));
        }
    }
    assert(family_answer(v6, ingress, Family::V4) is None) by {
        if configured(v6, Family::V4) {
            let i = choose|i: int| #[trigger] counts(v6, Family::V4, i);
            assert(v6.contains(v6[i]));
        }
    }
    if v4.len() > 0 {
        assert(v4.contains(v4[0]));
        assert(counts(v4, Family::V4, 0));
    }
    if v6.len() > 0 {
        assert(v6.contains(v6[0]));
        assert(counts(v6, Family::V6, 0));
    }
}

/// What a family answers depends on its own routes alone.
proof fn lemma_family_apart(
    table: Seq<RouteView>,
    own: Seq<RouteView>,
    ingress: u32,
    family: Family,
)
    requires
        forall|route: RouteView| #[trigger]
            own.contains(route) <==> table.contains(route) && route.family == family && route.table
                != 255,
    ensures
        family_answer(table, ingress, family) == family_answer(own, ingress, family),
{
    lemma_family_held(table, own, ingress, family);
    lemma_family_held(own, table, ingress, family);
}

/// What the routes of a family make true of it is true in every table that holds them.
proof fn lemma_family_held(a: Seq<RouteView>, b: Seq<RouteView>, ingress: u32, family: Family)
    requires
        forall|route: RouteView|
            route.family == family && route.table != 255 && #[trigger] a.contains(route)
                ==> b.contains(route),
    ensures
        configured(a, family) ==> configured(b, family),
        policy_routed(a, family) ==> policy_routed(b, family),
        unresolved(a, family) ==> unresolved(b, family),
        leaves_through(a, family, ingress) ==> leaves_through(b, family, ingress),
        several_defaults(a, family) ==> several_defaults(b, family),
        default_on(a, family, ingress) ==> default_on(b, family, ingress),
{
    assert forall|i: int| #[trigger] counts(a, family, i) implies exists|j: int| #[trigger]
        counts(b, family, j) && b[j] == a[i] by {
        assert(a.contains(a[i]));
        let j = choose|j: int| 0 <= j < b.len() && b[j] == a[i];
        assert(counts(b, family, j));
    }
    assert forall|i: int, oif: u32| #[trigger]
        default_through(a, family, i, oif) implies default_on(b, family, oif) by {
        assert(counts(a, family, i));
        let j = choose|j: int| #[trigger] counts(b, family, j) && b[j] == a[i];
        assert(default_through(b, family, j, oif));
    }
    if several_defaults(a, family) {
        let (i, j, first, second) = choose|i: int, j: int, first: u32, second: u32| #[trigger]
            default_through(a, family, i, first) && #[trigger] default_through(a, family, j, second)
                && first != second;
        let k = choose|k: int| #[trigger] default_through(b, family, k, first);
        let l = choose|l: int| #[trigger] default_through(b, family, l, second);
        assert(default_through(b, family, k, first) && default_through(b, family, l, second));
    }
}

} // verus!
