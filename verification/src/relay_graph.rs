//! Graph-based Sybil detection.
//!
//! Relays that are much alike are tied to one another. A group of four or more
//! relays that hang together by such ties, most of them directly, is suspicious.

use crate::names::texts;
use crate::random;
use crate::ratio::Ratio;
use crate::sybil_defense::{
    alike_nicknames, law_similarity_is_symmetric, law_ties, same_subnet, tied, RelayInfo,
    SybilDetector, SybilGroup,
};
use crate::text;
use crate::text::decimal_text;
use crate::time::Instant;
use vstd::prelude::*;
use vstd::string::*;

verus! {

/// Whether some relay has this identity.
pub open spec fn known(relays: Seq<RelayInfo>, name: Seq<char>) -> bool {
    exists|i: int| 0 <= i < relays.len() && (#[trigger] relays[i]).identity@ == name
}

/// Whether two relays with these identities are tied to one another.
pub open spec fn linked(relays: Seq<RelayInfo>, a: Seq<char>, b: Seq<char>) -> bool {
    exists|p: int, q: int|
        0 <= p < relays.len() && 0 <= q < relays.len() && p != q && (
        #[trigger] relays[p]).identity@ == a && (#[trigger] relays[q]).identity@ == b && tied(
            relays[p],
            relays[q],
        )
}

/// Whether `steps` links lead from one identity to another.
pub open spec fn leads(relays: Seq<RelayInfo>, a: Seq<char>, b: Seq<char>, steps: nat) -> bool
    decreases steps,
{
    if steps == 0 {
        a == b
    } else {
        exists|c: Seq<char>|
            leads(relays, a, c, (steps - 1) as nat) && #[trigger] linked(relays, c, b)
    }
}

/// Whether links lead from one identity to another.
pub open spec fn reaches(relays: Seq<RelayInfo>, a: Seq<char>, b: Seq<char>) -> bool {
    exists|steps: nat| leads(relays, a, b, steps)
}

/// Whether these are all the identities, each once, that links lead to from any
/// of them.
pub open spec fn hangs_together(relays: Seq<RelayInfo>, members: Seq<Seq<char>>) -> bool {
    &&& members.no_duplicates()
    &&& forall|x: Seq<char>| #[trigger] members.contains(x) ==> known(relays, x)
    &&& forall|x: Seq<char>, y: Seq<char>|
        members.contains(x) ==> (#[trigger] reaches(relays, x, y) <==> members.contains(y))
}

/// How many of `nodes` an identity is linked to.
pub open spec fn links_from(relays: Seq<RelayInfo>, a: Seq<char>, nodes: Seq<Seq<char>>) -> nat
    decreases nodes.len(),
{
    if nodes.len() == 0 {
        0
    } else {
        links_from(relays, a, nodes.drop_last()) + if linked(relays, a, nodes.last()) {
            1nat
        } else {
            0
        }
    }
}

/// How many links lead from `heads` to `nodes`.
pub open spec fn links_between(
    relays: Seq<RelayInfo>,
    heads: Seq<Seq<char>>,
    nodes: Seq<Seq<char>>,
) -> nat
    decreases heads.len(),
{
    if heads.len() == 0 {
        0
    } else {
        links_between(relays, heads.drop_last(), nodes) + links_from(relays, heads.last(), nodes)
    }
}

/// Whether a group is large and tight: four members or more, and more than
/// seven tenths of the links that there could be.
pub open spec fn dense(relays: Seq<RelayInfo>, members: Seq<Seq<char>>) -> bool {
    members.len() >= 4 && 10 * links_between(relays, members, members) > 7 * (members.len() * (
    members.len() - 1))
}

/// The share of links that there are among those that there could be.
pub open spec fn density_of(relays: Seq<RelayInfo>, members: Seq<Seq<char>>) -> Ratio {
    Ratio {
        num: links_between(relays, members, members) as u64,
        den: (members.len() * (members.len() - 1)) as u64,
    }
}

/// Members of a group and its density.
pub struct Cluster {
    /// The identities.
    pub members: Vec<String>,
    /// The share of links.
    pub density: Ratio,
}

/// Whether `found` are the large and tight groups, with their densities.
pub open spec fn all_clusters(
    relays: Seq<RelayInfo>,
    found: Seq<(Seq<Seq<char>>, Ratio)>,
) -> bool {
    &&& forall|i: int| 0 <= i < found.len() ==> sound_cluster(relays, #[trigger] found[i])
    &&& forall|i: int, j: int, x: Seq<char>|
        0 <= i < j < found.len() && #[trigger] found[i].0.contains(x)
            ==> !#[trigger] found[j].0.contains(x)
    &&& forall|x: Seq<char>| #[trigger] known(relays, x) ==> in_cluster(found, x) || harmless(relays, x)
}

/// Whether a group is large, tight and complete, and its density is right.
pub open spec fn sound_cluster(relays: Seq<RelayInfo>, c: (Seq<Seq<char>>, Ratio)) -> bool {
    hangs_together(relays, c.0) && dense(relays, c.0) && c.1 == density_of(relays, c.0)
}

/// Whether an identity is in one of the groups.
pub open spec fn in_cluster(found: Seq<(Seq<Seq<char>>, Ratio)>, x: Seq<char>) -> bool {
    exists|i: int| 0 <= i < found.len() && (#[trigger] found[i]).0.contains(x)
}

/// Whether the group of an identity is small or loose.
pub open spec fn harmless(relays: Seq<RelayInfo>, x: Seq<char>) -> bool {
    exists|c: Seq<Seq<char>>| #[trigger]
        hangs_together(relays, c) && c.contains(x) && !dense(relays, c)
}

/// Whether a relay with the identity comes before place `j` of the list.
pub open spec fn comes_before(relays: Seq<RelayInfo>, name: Seq<char>, j: int) -> bool {
    exists|i: int| 0 <= i < j && (#[trigger] relays[i]).identity@ == name
}

/// Whether each group begins with that of its relays that comes first in the
/// list, and the groups come in the order of those.
pub open spec fn in_list_order(
    relays: Seq<RelayInfo>,
    found: Seq<(Seq<Seq<char>>, Ratio)>,
) -> bool {
    &&& forall|f: int, j: int|
        0 <= f < found.len() && 0 <= j < relays.len() && #[trigger] found[f].0.contains(
            (#[trigger] relays[j]).identity@,
        ) ==> relays[j].identity@ == found[f].0[0] || comes_before(relays, found[f].0[0], j)
    &&& forall|f: int, g: int, j: int|
        0 <= f < g < found.len() && 0 <= j < relays.len() && (#[trigger] relays[j]).identity@
            == (#[trigger] found[g]).0[0] ==> comes_before(relays, (#[trigger] found[f]).0[0], j)
}

/// Groups as identities and densities.
pub open spec fn cluster_views(found: Seq<Cluster>) -> Seq<(Seq<Seq<char>>, Ratio)> {
    found.map_values(|c: Cluster| (texts(c.members@), c.density))
}

/// Detected groups as identities and densities.
pub open spec fn group_clusters(groups: Seq<SybilGroup>) -> Seq<(Seq<Seq<char>>, Ratio)> {
    groups.map_values(|g: SybilGroup| (texts(g.members@), g.confidence))
}

/// Links lead both ways.
pub proof fn law_links_are_mutual(relays: Seq<RelayInfo>, a: Seq<char>, b: Seq<char>)
    ensures
        linked(relays, a, b) == linked(relays, b, a),
{
    if linked(relays, a, b) {
        let (p, q) = choose|p: int, q: int|
            0 <= p < relays.len() && 0 <= q < relays.len() && p != q && (
            #[trigger] relays[p]).identity@ == a && (#[trigger] relays[q]).identity@ == b && tied(
                relays[p],
                relays[q],
            );
        law_similarity_is_symmetric(relays[p], relays[q]);
        assert(tied(relays[q], relays[p]));
    }
    if linked(relays, b, a) {
        let (p, q) = choose|p: int, q: int|
            0 <= p < relays.len() && 0 <= q < relays.len() && p != q && (
            #[trigger] relays[p]).identity@ == b && (#[trigger] relays[q]).identity@ == a && tied(
                relays[p],
                relays[q],
            );
        law_similarity_is_symmetric(relays[p], relays[q]);
        assert(tied(relays[q], relays[p]));
    }
}

/// A link reaches: identities that are linked hang together, and one that is linked
/// to nobody reaches nobody but itself.
pub proof fn law_links_reach(relays: Seq<RelayInfo>, a: Seq<char>, b: Seq<char>)
    ensures
        linked(relays, a, b) ==> reaches(relays, a, b),
        (forall|c: Seq<char>| !#[trigger] linked(relays, a, c)) && reaches(relays, a, b) ==> a == b,
{
    if linked(relays, a, b) {
        assert(leads(relays, a, a, 0));
        assert(leads(relays, a, b, 1)) by {
            assert(leads(relays, a, a, (1 - 1) as nat) && linked(relays, a, b));
        }
    }
    if (forall|c: Seq<char>| !#[trigger] linked(relays, a, c)) && reaches(relays, a, b) {
        let n = choose|n: nat| leads(relays, a, b, n);
        lemma_leads_back(relays, a, b, n);
        if n > 0 {
            let c = choose|c: Seq<char>|
                leads(relays, b, c, (n - 1) as nat) && #[trigger] linked(relays, c, a);
            law_links_are_mutual(relays, c, a);
        }
    }
}

/// Two identities are linked exactly if two relays of theirs are tied: these lie in
/// one subnet of sixteen bits, have nicknames of one pattern, and neither has three
/// times the bandwidth of the other.
pub proof fn law_what_links(relays: Seq<RelayInfo>, p: int, q: int)
    requires
        0 <= p < relays.len(),
        0 <= q < relays.len(),
        p != q,
        same_subnet(relays[p].address, relays[q].address, 16),
        alike_nicknames(relays[p].nickname@, relays[q].nickname@),
        3 * relays[p].bandwidth > relays[q].bandwidth,
        3 * relays[q].bandwidth > relays[p].bandwidth,
    ensures
        linked(relays, relays[p].identity@, relays[q].identity@),
{
    law_ties(relays[p], relays[q]);
}

/// Links are counted one by one: those to two lists of identities add up, as do
/// those from two lists.
pub proof fn law_links_are_counted(
    relays: Seq<RelayInfo>,
    a: Seq<char>,
    first: Seq<Seq<char>>,
    second: Seq<Seq<char>>,
    nodes: Seq<Seq<char>>,
)
    ensures
        links_from(relays, a, first + second) == links_from(relays, a, first) + links_from(
            relays,
            a,
            second,
        ),
        links_from(relays, a, first) <= first.len(),
        links_between(relays, first + second, nodes) == links_between(relays, first, nodes)
            + links_between(relays, second, nodes),
        links_from(relays, a, seq![]) == 0,
        links_from(relays, a, seq![nodes[0]]) == if linked(relays, a, nodes[0]) {
            1nat
        } else {
            0
        },
        links_between(relays, seq![a], nodes) == links_from(relays, a, nodes),
    decreases first.len() + second.len(),
{
    assert(seq![nodes[0]].drop_last() =~= seq![]);
    assert(seq![a].drop_last() =~= seq![]);
    assert(links_between(relays, seq![], nodes) == 0);
    if second.len() > 0 {
        law_links_are_counted(relays, a, first, second.drop_last(), nodes);
        assert((first + second).drop_last() =~= first + second.drop_last());
    } else {
        assert(first + second =~= first);
        if first.len() > 0 {
            law_links_are_counted(relays, a, first.drop_last(), second, nodes);
        }
    }
}

/// A group of which everybody is linked to everybody else is tight from four members
/// on, and one of fewer members, or of which nobody is linked to anybody, never is.
pub proof fn law_complete_groups_are_tight(relays: Seq<RelayInfo>, members: Seq<Seq<char>>)
    ensures
        members.len() >= 4 && (forall|i: int, j: int|
            0 <= i < members.len() && 0 <= j < members.len() && i != j ==> linked(
                relays,
                #[trigger] members[i],
                #[trigger] members[j],
            )) ==> dense(relays, members),
        (forall|i: int, j: int|
            0 <= i < members.len() && 0 <= j < members.len() ==> !linked(
                relays,
                #[trigger] members[i],
                #[trigger] members[j],
            )) ==> !dense(relays, members),
        members.len() <= 3 ==> !dense(relays, members),
{
    let n = members.len() as int;
    if n >= 4 {
        if forall|i: int, j: int|
            0 <= i < members.len() && 0 <= j < members.len() && i != j ==> linked(
                relays,
                #[trigger] members[i],
                #[trigger] members[j],
            ) {
            lemma_many_links(relays, members, members);
            assert(n * (n - 1) >= 12) by (nonlinear_arith)
                requires
                    n >= 4,
            ;
        }
        if forall|i: int, j: int|
            0 <= i < members.len() && 0 <= j < members.len() ==> !linked(
                relays,
                #[trigger] members[i],
                #[trigger] members[j],
            ) {
            lemma_no_links(relays, members, members);
            assert(n * (n - 1) >= 12) by (nonlinear_arith)
                requires
                    n >= 4,
            ;
        }
    }
}

/// A group is tight exactly if it has four members or more and its density is above
/// seven tenths.
pub proof fn law_tight_is_above_seven_tenths(relays: Seq<RelayInfo>, members: Seq<Seq<char>>)
    requires
        members.len() * members.len() <= u64::MAX,
    ensures
        dense(relays, members) <==> members.len() >= 4 && density_of(relays, members).above(
            Ratio { num: 7, den: 10 },
        ),
        dense(relays, members) <==> members.len() >= 4 && density_of(relays, members).above(
            Ratio { num: 14, den: 20 },
        ),
{
    let n = members.len() as int;
    let l = links_between(relays, members, members) as int;
    lemma_links_bounded(relays, members, members);
    if n >= 4 {
        assert(0 <= n * (n - 1) <= n * n) by (nonlinear_arith)
            requires
                n >= 4,
        ;
        let d = n * (n - 1);
        let r = density_of(relays, members);
        let mark = Ratio { num: 7, den: 10 };
        assert(r.num == l && r.den == d);
        assert(r.num * mark.den == 10 * l) by (nonlinear_arith)
            requires
                r.num == l,
                mark.den == 10,
        ;
        assert(mark.num * r.den == 7 * d) by (nonlinear_arith)
            requires
                r.den == d,
                mark.num == 7,
        ;
        crate::ratio::law_expanding_changes_nothing(mark, r, Ratio { num: 14, den: 20 }, 2);
    }
}

proof fn lemma_most_linked(relays: Seq<RelayInfo>, a: Seq<char>, nodes: Seq<Seq<char>>, skip: int)
    requires
        forall|j: int| 0 <= j < nodes.len() && j != skip ==> linked(relays, a, #[trigger] nodes[j]),
    ensures
        links_from(relays, a, nodes) >= nodes.len() - 1,
        !(0 <= skip < nodes.len()) ==> links_from(relays, a, nodes) == nodes.len(),
    decreases nodes.len(),
{
    if nodes.len() > 0 {
        let less = nodes.drop_last();
        assert forall|j: int| 0 <= j < less.len() && j != skip implies linked(
            relays,
            a,
            #[trigger] less[j],
        ) by {
            assert(less[j] == nodes[j]);
        }
        lemma_most_linked(relays, a, less, skip);
        assert(nodes.last() == nodes[nodes.len() - 1]);
    }
}

proof fn lemma_many_links(relays: Seq<RelayInfo>, heads: Seq<Seq<char>>, nodes: Seq<Seq<char>>)
    requires
        heads.is_prefix_of(nodes),
        forall|i: int, j: int|
            0 <= i < nodes.len() && 0 <= j < nodes.len() && i != j ==> linked(
                relays,
                #[trigger] nodes[i],
                #[trigger] nodes[j],
            ),
    ensures
        links_between(relays, heads, nodes) >= heads.len() * (nodes.len() - 1),
    decreases heads.len(),
{
    let k = heads.len() as int;
    let n = nodes.len() as int;
    if k > 0 {
        lemma_many_links(relays, heads.drop_last(), nodes);
        assert(heads.last() == nodes[k - 1]);
        assert forall|j: int| 0 <= j < nodes.len() && j != k - 1 implies linked(
            relays,
            heads.last(),
            #[trigger] nodes[j],
        ) by {
            assert(linked(relays, nodes[k - 1], nodes[j]));
        }
        lemma_most_linked(relays, heads.last(), nodes, k - 1);
        assert(k * (n - 1) == (k - 1) * (n - 1) + (n - 1)) by (nonlinear_arith);
    } else {
        assert(k * (n - 1) == 0) by (nonlinear_arith)
            requires
                k == 0,
        ;
    }
}

proof fn lemma_no_links(relays: Seq<RelayInfo>, heads: Seq<Seq<char>>, nodes: Seq<Seq<char>>)
    requires
        forall|i: int, j: int|
            0 <= i < heads.len() && 0 <= j < nodes.len() ==> !linked(
                relays,
                #[trigger] heads[i],
                #[trigger] nodes[j],
            ),
    ensures
        links_between(relays, heads, nodes) == 0,
    decreases heads.len(),
{
    if heads.len() > 0 {
        let less = heads.drop_last();
        assert forall|i: int, j: int| 0 <= i < less.len() && 0 <= j < nodes.len() implies !linked(
            relays,
            #[trigger] less[i],
            #[trigger] nodes[j],
        ) by {
            assert(less[i] == heads[i]);
        }
        lemma_no_links(relays, less, nodes);
        assert(heads.last() == heads[heads.len() - 1]);
        lemma_not_linked(relays, heads.last(), nodes);
    }
}

proof fn lemma_not_linked(relays: Seq<RelayInfo>, a: Seq<char>, nodes: Seq<Seq<char>>)
    requires
        forall|j: int| 0 <= j < nodes.len() ==> !linked(relays, a, #[trigger] nodes[j]),
    ensures
        links_from(relays, a, nodes) == 0,
    decreases nodes.len(),
{
    if nodes.len() > 0 {
        let less = nodes.drop_last();
        assert forall|j: int| 0 <= j < less.len() implies !linked(
            relays,
            a,
            #[trigger] less[j],
        ) by {
            assert(less[j] == nodes[j]);
        }
        lemma_not_linked(relays, a, less);
        assert(nodes.last() == nodes[nodes.len() - 1]);
    }
}

proof fn lemma_leads_on(
    relays: Seq<RelayInfo>,
    a: Seq<char>,
    b: Seq<char>,
    c: Seq<char>,
    n: nat,
    m: nat,
)
    requires
        leads(relays, a, b, n),
        leads(relays, b, c, m),
    ensures
        leads(relays, a, c, n + m),
    decreases m,
{
    if m > 0 {
        let d = choose|d: Seq<char>|
            leads(relays, b, d, (m - 1) as nat) && #[trigger] linked(relays, d, c);
        lemma_leads_on(relays, a, b, d, n, (m - 1) as nat);
        assert((n + m - 1) as nat == n + (m - 1) as nat);
        assert(leads(relays, a, d, (n + m - 1) as nat) && linked(relays, d, c));
    }
}

proof fn lemma_leads_back(relays: Seq<RelayInfo>, a: Seq<char>, b: Seq<char>, n: nat)
    requires
        leads(relays, a, b, n),
    ensures
        leads(relays, b, a, n),
    decreases n,
{
    if n > 0 {
        let c = choose|c: Seq<char>|
            leads(relays, a, c, (n - 1) as nat) && #[trigger] linked(relays, c, b);
        lemma_leads_back(relays, a, c, (n - 1) as nat);
        law_links_are_mutual(relays, b, c);
        assert(leads(relays, b, b, 0));
        assert(leads(relays, b, c, 1)) by {
            assert(leads(relays, b, b, 0) && linked(relays, b, c));
        }
        lemma_leads_on(relays, b, c, a, 1, (n - 1) as nat);
        assert(1 + (n - 1) as nat == n);
    }
}

/// To hang together is an equivalence: every identity reaches itself, what it
/// reaches reaches it, and what that reaches it reaches too.
pub proof fn law_reaching_is_an_equivalence(
    relays: Seq<RelayInfo>,
    a: Seq<char>,
    b: Seq<char>,
    c: Seq<char>,
)
    ensures
        reaches(relays, a, a),
        reaches(relays, a, b) == reaches(relays, b, a),
        reaches(relays, a, b) && reaches(relays, b, c) ==> reaches(relays, a, c),
{
    assert(leads(relays, a, a, 0));
    if reaches(relays, a, b) {
        let n = choose|n: nat| leads(relays, a, b, n);
        lemma_leads_back(relays, a, b, n);
    }
    if reaches(relays, b, a) {
        let n = choose|n: nat| leads(relays, b, a, n);
        lemma_leads_back(relays, b, a, n);
    }
    if reaches(relays, a, b) && reaches(relays, b, c) {
        let n = choose|n: nat| leads(relays, a, b, n);
        let m = choose|m: nat| leads(relays, b, c, m);
        lemma_leads_on(relays, a, b, c, n, m);
    }
}

/// A set that links do not lead out of holds whatever its members reach.
proof fn lemma_closed(
    relays: Seq<RelayInfo>,
    members: Seq<Seq<char>>,
    a: Seq<char>,
    b: Seq<char>,
    n: nat,
)
    requires
        members.contains(a),
        leads(relays, a, b, n),
        forall|x: Seq<char>, y: Seq<char>|
            members.contains(x) && #[trigger] linked(relays, x, y) ==> members.contains(y),
    ensures
        members.contains(b),
    decreases n,
{
    if n > 0 {
        let c = choose|c: Seq<char>|
            leads(relays, a, c, (n - 1) as nat) && #[trigger] linked(relays, c, b);
        lemma_closed(relays, members, a, c, (n - 1) as nat);
    }
}

/// Two identities with links to the same third hang together with it.
proof fn lemma_hangs_together(relays: Seq<RelayInfo>, members: Seq<Seq<char>>, start: Seq<char>)
    requires
        members.no_duplicates(),
        forall|x: Seq<char>| #[trigger] members.contains(x) ==> known(relays, x),
        forall|x: Seq<char>| #[trigger] members.contains(x) ==> reaches(relays, start, x),
        forall|x: Seq<char>, y: Seq<char>|
            members.contains(x) && #[trigger] linked(relays, x, y) ==> members.contains(y),
    ensures
        hangs_together(relays, members),
{
    assert forall|x: Seq<char>, y: Seq<char>| members.contains(x) implies (#[trigger] reaches(
        relays,
        x,
        y,
    ) <==> members.contains(y)) by {
        if reaches(relays, x, y) {
            let n = choose|n: nat| leads(relays, x, y, n);
            lemma_closed(relays, members, x, y, n);
        }
        if members.contains(y) {
            law_reaching_is_an_equivalence(relays, start, x, y);
            law_reaching_is_an_equivalence(relays, x, start, y);
        }
    }
}

/// The identities of some relays and the links between them.
struct RelayGraph {
    names: Vec<String>,
    links: Vec<Vec<bool>>,
}

impl RelayGraph {
    spec fn name(self, i: int) -> Seq<char> {
        self.names@[i]@
    }

    spec fn link(self, a: int, b: int) -> bool {
        self.links@[a]@[b]
    }

    spec fn size(self) -> int {
        self.names@.len() as int
    }

    spec fn wf(self, relays: Seq<RelayInfo>) -> bool {
        &&& distinct(self.names@)
        &&& self.size() <= relays.len()
        &&& square(self.links@, self.size())
        &&& forall|a: int| 0 <= a < self.size() ==> known(relays, #[trigger] self.name(a))
        &&& forall|i: int|
            0 <= i < relays.len() ==> listed(self.names@, (#[trigger] relays[i]).identity@)
        &&& ordered(relays, self.names@)
        &&& forall|a: int, b: int|
            0 <= a < self.size() && 0 <= b < self.size() ==> #[trigger] self.link(a, b) == linked(
                relays,
                self.name(a),
                self.name(b),
            )
    }
}

spec fn distinct(names: Seq<String>) -> bool {
    forall|a: int, b: int|
        0 <= a < b < names.len() ==> (#[trigger] names[a])@ != (#[trigger] names[b])@
}

spec fn listed(names: Seq<String>, name: Seq<char>) -> bool {
    exists|a: int| 0 <= a < names.len() && (#[trigger] names[a])@ == name
}

/// Whether the names come in the order in which the relays first have them.
spec fn ordered(relays: Seq<RelayInfo>, names: Seq<String>) -> bool {
    forall|b: int, a: int, j: int|
        0 <= b < a < names.len() && 0 <= j < relays.len() && (#[trigger] relays[j]).identity@ == (
        #[trigger] names[a])@ ==> comes_before(relays, (#[trigger] names[b])@, j)
}

spec fn square(links: Seq<Vec<bool>>, n: int) -> bool {
    &&& links.len() == n
    &&& forall|a: int| 0 <= a < n ==> (#[trigger] links[a])@.len() == n
}

/// Whether a tie between two relays with these places has been met, when the
/// pairs before `(p, q)` have been looked at.
spec fn met(
    relays: Seq<RelayInfo>,
    places: Seq<usize>,
    a: int,
    b: int,
    p: int,
    q: int,
) -> bool {
    exists|i: int, j: int|
        0 <= i < relays.len() && 0 <= j < relays.len() && i != j && (i < p || (i == p && j < q))
            && (#[trigger] places[i]) == a && (#[trigger] places[j]) == b && tied(
            relays[i],
            relays[j],
        )
}

fn set_link(links: &mut Vec<Vec<bool>>, a: usize, b: usize, n: usize)
    requires
        square(old(links)@, n as int),
        a < n,
        b < n,
    ensures
        square(final(links)@, n as int),
        forall|i: int, j: int|
            0 <= i < n && 0 <= j < n ==> #[trigger] final(links)@[i]@[j] == (old(links)@[i]@[j] || (
            i == a && j == b)),
{
    let row = &mut links[a];
    row.set(b, true);
}

/// The places of the relays' identities in a list of all of them, each once.
fn list_names(relays: &[RelayInfo]) -> (r: (Vec<String>, Vec<usize>))
    ensures
        distinct(r.0@),
        r.0@.len() <= relays@.len(),
        r.1@.len() == relays@.len(),
        forall|a: int| 0 <= a < r.0@.len() ==> known(relays@, (#[trigger] r.0@[a])@),
        forall|i: int|
            0 <= i < relays@.len() ==> (#[trigger] r.1@[i]) < r.0@.len() && r.0@[r.1@[i] as int]@
                == relays@[i].identity@,
        ordered(relays@, r.0@),
{
    let mut names: Vec<String> = Vec::new();
    let mut places: Vec<usize> = Vec::new();
    let mut i: usize = 0;
    while i < relays.len()
        invariant
            i <= relays@.len(),
            distinct(names@),
            names@.len() <= i,
            places@.len() == i,
            ordered(relays@, names@),
            forall|b: int|
                0 <= b < names@.len() ==> comes_before(relays@, (#[trigger] names@[b])@, i as int),
            forall|a: int| 0 <= a < names@.len() ==> known(relays@, (#[trigger] names@[a])@),
            forall|k: int|
                0 <= k < i ==> (#[trigger] places@[k]) < names@.len() && names@[places@[k] as int]@
                    == relays@[k].identity@,
        decreases relays@.len() - i,
    {
        let mut a: usize = 0;
        while a < names.len() && !text::same(names[a].as_str(), relays[i].identity.as_str())
            invariant
                i < relays@.len(),
                a <= names@.len(),
                forall|b: int| 0 <= b < a ==> (#[trigger] names@[b])@ != relays@[i as int].identity@,
            decreases names@.len() - a,
        {
            a = a + 1;
        }
        let ghost before = names@;
        if a == names.len() {
            names.push(relays[i].identity.clone());
            proof {
                assert(known(relays@, relays@[i as int].identity@));
                assert forall|b: int| 0 <= b < names@.len() implies known(
                    relays@,
                    (#[trigger] names@[b])@,
                ) by {
                    if b < before.len() {
                        assert(names@[b] == before[b]);
                    }
                }
                assert forall|b: int, c: int, j: int|
                    0 <= b < c < names@.len() && 0 <= j < relays@.len() && (
                    #[trigger] relays@[j]).identity@ == (#[trigger] names@[c])@ implies comes_before(
                    relays@,
                    (#[trigger] names@[b])@,
                    j,
                ) by {
                    assert(names@[b] == before[b]);
                    if c < before.len() {
                        assert(names@[c] == before[c]);
                    } else {
                        if j < i {
                            assert(names@[places@[j] as int]@ == relays@[j].identity@);
                        }
                        let k = choose|k: int|
                            0 <= k < i && (#[trigger] relays@[k]).identity@ == names@[b]@;
                        assert(relays@[k].identity@ == names@[b]@);
                    }
                }
            }
        }
        proof {
            assert forall|b: int| 0 <= b < names@.len() implies comes_before(
                relays@,
                (#[trigger] names@[b])@,
                i + 1,
            ) by {
                if b < before.len() {
                    assert(names@[b] == before[b]);
                    let k = choose|k: int|
                        0 <= k < i && (#[trigger] relays@[k]).identity@ == names@[b]@;
                    assert(relays@[k].identity@ == names@[b]@);
                } else {
                    assert(relays@[i as int].identity@ == names@[b]@);
                }
            }
        }
        places.push(a);
        i = i + 1;
    }
    (names, places)
}

fn no_links(n: usize) -> (r: Vec<Vec<bool>>)
    ensures
        square(r@, n as int),
        forall|a: int, b: int| 0 <= a < n && 0 <= b < n ==> !#[trigger] r@[a]@[b],
{
    let mut links: Vec<Vec<bool>> = Vec::new();
    let mut a: usize = 0;
    while a < n
        invariant
            a <= n,
            links@.len() == a,
            forall|i: int| 0 <= i < a ==> (#[trigger] links@[i])@.len() == n,
            forall|i: int, j: int| 0 <= i < a && 0 <= j < n ==> !#[trigger] links@[i]@[j],
        decreases n - a,
    {
        let mut row: Vec<bool> = Vec::new();
        let mut b: usize = 0;
        while b < n
            invariant
                b <= n,
                row@.len() == b,
                forall|j: int| 0 <= j < b ==> !#[trigger] row@[j],
            decreases n - b,
        {
            row.push(false);
            b = b + 1;
        }
        links.push(row);
        a = a + 1;
    }
    links
}

proof fn lemma_met_next(
    relays: Seq<RelayInfo>,
    places: Seq<usize>,
    a: int,
    b: int,
    p: int,
    q: int,
)
    requires
        places.len() == relays.len(),
        0 <= p < relays.len(),
        0 <= q < relays.len(),
    ensures
        met(relays, places, a, b, p, q + 1) == (met(relays, places, a, b, p, q) || (p != q
            && places[p] == a && places[q] == b && tied(relays[p], relays[q]))),
{
    if met(relays, places, a, b, p, q) {
        let (i, j) = choose|i: int, j: int|
            0 <= i < relays.len() && 0 <= j < relays.len() && i != j && (i < p || (i == p && j < q))
                && (#[trigger] places[i]) == a && (#[trigger] places[j]) == b && tied(
                relays[i],
                relays[j],
            );
        assert(places[i] == a && places[j] == b);
    }
}

proof fn lemma_met_row(relays: Seq<RelayInfo>, places: Seq<usize>, a: int, b: int, p: int)
    requires
        places.len() == relays.len(),
    ensures
        met(relays, places, a, b, p, relays.len() as int) == met(relays, places, a, b, p + 1, 0),
{
    if met(relays, places, a, b, p, relays.len() as int) {
        let (i, j) = choose|i: int, j: int|
            0 <= i < relays.len() && 0 <= j < relays.len() && i != j && (i < p || (i == p && j
                < relays.len())) && (#[trigger] places[i]) == a && (#[trigger] places[j]) == b
                && tied(relays[i], relays[j]);
        assert(places[i] == a && places[j] == b);
    }
    if met(relays, places, a, b, p + 1, 0) {
        let (i, j) = choose|i: int, j: int|
            0 <= i < relays.len() && 0 <= j < relays.len() && i != j && (i < p + 1 || (i == p + 1
                && j < 0)) && (#[trigger] places[i]) == a && (#[trigger] places[j]) == b && tied(
                relays[i],
                relays[j],
            );
        assert(places[i] == a && places[j] == b);
    }
}

proof fn lemma_met_all(
    relays: Seq<RelayInfo>,
    places: Seq<usize>,
    names: Seq<String>,
    a: int,
    b: int,
)
    requires
        places.len() == relays.len(),
        distinct(names),
        0 <= a < names.len(),
        0 <= b < names.len(),
        forall|i: int|
            0 <= i < relays.len() ==> (#[trigger] places[i]) < names.len()
                && names[places[i] as int]@ == relays[i].identity@,
    ensures
        met(relays, places, a, b, relays.len() as int, 0) == linked(relays, names[a]@, names[b]@),
{
    let n = relays.len() as int;
    if met(relays, places, a, b, n, 0) {
        let (i, j) = choose|i: int, j: int|
            0 <= i < relays.len() && 0 <= j < relays.len() && i != j && (i < n || (i == n && j < 0))
                && (#[trigger] places[i]) == a && (#[trigger] places[j]) == b && tied(
                relays[i],
                relays[j],
            );
        assert(relays[i].identity@ == names[a]@ && relays[j].identity@ == names[b]@);
    }
    if linked(relays, names[a]@, names[b]@) {
        let (p, q) = choose|p: int, q: int|
            0 <= p < relays.len() && 0 <= q < relays.len() && p != q && (
            #[trigger] relays[p]).identity@ == names[a]@ && (#[trigger] relays[q]).identity@
                == names[b]@ && tied(relays[p], relays[q]);
        assert(places[p] == a) by {
            assert(names[places[p] as int]@ == names[a]@);
        }
        assert(places[q] == b) by {
            assert(names[places[q] as int]@ == names[b]@);
        }
    }
}

fn build_graph(relays: &[RelayInfo]) -> (r: RelayGraph)
    ensures
        r.wf(relays@),
{
    let (names, places) = list_names(relays);
    let n: usize = names.len();
    let mut links = no_links(n);
    let mut p: usize = 0;
    while p < relays.len()
        invariant
            p <= relays@.len(),
            n == names@.len(),
            places@.len() == relays@.len(),
            forall|i: int| 0 <= i < relays@.len() ==> (#[trigger] places@[i]) < n,
            square(links@, n as int),
            forall|a: int, b: int|
                0 <= a < n && 0 <= b < n ==> #[trigger] links@[a]@[b] == met(
                    relays@,
                    places@,
                    a,
                    b,
                    p as int,
                    0,
                ),
        decreases relays@.len() - p,
    {
        let mut q: usize = 0;
        while q < relays.len()
            invariant
                p < relays@.len(),
                q <= relays@.len(),
                n == names@.len(),
                places@.len() == relays@.len(),
                forall|i: int| 0 <= i < relays@.len() ==> (#[trigger] places@[i]) < n,
                square(links@, n as int),
                forall|a: int, b: int|
                    0 <= a < n && 0 <= b < n ==> #[trigger] links@[a]@[b] == met(
                        relays@,
                        places@,
                        a,
                        b,
                        p as int,
                        q as int,
                    ),
            decreases relays@.len() - q,
        {
            let ghost before = links@;
            if p != q {
                let similarity = SybilDetector::calculate_similarity(&relays[p], &relays[q]);
                if similarity.exceeds_tenths(8) {
                    set_link(&mut links, places[p], places[q], n);
                }
            }
            proof {
                assert forall|a: int, b: int| 0 <= a < n && 0 <= b < n implies #[trigger] links@[a]@[b]
                    == met(relays@, places@, a, b, p as int, q + 1) by {
                    lemma_met_next(relays@, places@, a, b, p as int, q as int);
                    assert(before[a]@[b] == met(relays@, places@, a, b, p as int, q as int));
                }
            }
            q = q + 1;
        }
        proof {
            assert forall|a: int, b: int| 0 <= a < n && 0 <= b < n implies #[trigger] links@[a]@[b]
                == met(relays@, places@, a, b, p + 1, 0) by {
                lemma_met_row(relays@, places@, a, b, p as int);
            }
        }
        p = p + 1;
    }
    let graph = RelayGraph { names, links };
    proof {
        assert forall|a: int, b: int|
            0 <= a < graph.size() && 0 <= b < graph.size() implies #[trigger] graph.link(a, b)
            == linked(relays@, graph.name(a), graph.name(b)) by {
            lemma_met_all(relays@, places@, names@, a, b);
            assert(links@[a]@[b] == met(relays@, places@, a, b, p as int, 0));
        }
        assert forall|a: int| 0 <= a < graph.size() implies known(
            relays@,
            #[trigger] graph.name(a),
        ) by {
            assert(known(relays@, names@[a]@));
        }
        assert forall|i: int| 0 <= i < relays@.len() implies listed(
            graph.names@,
            (#[trigger] relays@[i]).identity@,
        ) by {
            assert(names@[places@[i] as int]@ == relays@[i].identity@);
        }
    }
    graph
}

/// How many places are not marked.
spec fn unmarked(visited: Seq<bool>) -> nat
    decreases visited.len(),
{
    if visited.len() == 0 {
        0
    } else {
        unmarked(visited.drop_last()) + if visited.last() {
            0nat
        } else {
            1
        }
    }
}

proof fn lemma_unmarked_bounded(visited: Seq<bool>)
    ensures
        unmarked(visited) <= visited.len(),
    decreases visited.len(),
{
    if visited.len() > 0 {
        lemma_unmarked_bounded(visited.drop_last());
    }
}

proof fn lemma_mark(visited: Seq<bool>, i: int)
    requires
        0 <= i < visited.len(),
        !visited[i],
    ensures
        unmarked(visited.update(i, true)) + 1 == unmarked(visited),
    decreases visited.len(),
{
    let more = visited.update(i, true);
    if i == visited.len() - 1 {
        assert(more.drop_last() =~= visited.drop_last());
    } else {
        lemma_mark(visited.drop_last(), i);
        assert(more.drop_last() =~= visited.drop_last().update(i, true));
    }
}

spec fn among(places: Seq<usize>, a: int) -> bool {
    exists|k: int| 0 <= k < places.len() && #[trigger] places[k] == a
}

proof fn lemma_among_push(places: Seq<usize>, x: usize)
    ensures
        forall|a: int| #[trigger] among(places.push(x), a) <==> among(places, a) || a == x,
{
    let more = places.push(x);
    assert forall|a: int| #[trigger] among(more, a) <==> among(places, a) || a == x by {
        if among(places, a) {
            let k = choose|k: int| 0 <= k < places.len() && #[trigger] places[k] == a;
            assert(more[k] == a);
        }
        assert(more[places.len() as int] == x);
        if among(more, a) {
            let k = choose|k: int| 0 <= k < more.len() && #[trigger] more[k] == a;
            if k < places.len() {
                assert(places[k] == a);
            }
        }
    }
}

proof fn lemma_reaches_on(relays: Seq<RelayInfo>, a: Seq<char>, b: Seq<char>, c: Seq<char>)
    requires
        reaches(relays, a, b),
        linked(relays, b, c),
    ensures
        reaches(relays, a, c),
{
    let n = choose|n: nat| leads(relays, a, b, n);
    assert((n + 1 - 1) as nat == n);
    assert(leads(relays, a, b, (n + 1 - 1) as nat) && linked(relays, b, c));
    assert(leads(relays, a, c, n + 1));
}

impl RelayGraph {
    spec fn closed_under_links(self, visited: Seq<bool>) -> bool {
        forall|a: int, b: int|
            0 <= a < self.size() && 0 <= b < self.size() && visited[a] && #[trigger] self.link(a, b)
                ==> visited[b]
    }

    /// Find connected component using DFS
    fn find_connected_component(
        &self,
        start: usize,
        visited: &mut Vec<bool>,
        Ghost(relays): Ghost<Seq<RelayInfo>>,
    ) -> (r: Vec<usize>)
        requires
            self.wf(relays),
            start < self.size(),
            old(visited)@.len() == self.size(),
        ensures
            final(visited)@.len() == self.size(),
            r@.no_duplicates(),
            r@.len() <= self.size(),
            forall|k: int|
                0 <= k < r@.len() ==> (#[trigger] r@[k]) < self.size() && !old(visited)@[r@[k] as int]
                    && reaches(relays, self.name(start as int), self.name(r@[k] as int)),
            forall|a: int|
                0 <= a < self.size() ==> #[trigger] final(visited)@[a] == (old(visited)@[a] || among(
                    r@,
                    a,
                )),
            forall|a: int, b: int|
                among(r@, a) && 0 <= b < self.size() && #[trigger] self.link(a, b) ==> final(
                    visited)@[b],
            final(visited)@[start as int],
            !old(visited)@[start as int] ==> r@.len() > 0 && r@[0] == start,
    {
        let ghost marks = visited@;
        let n: usize = self.names.len();
        let mut component: Vec<usize> = Vec::new();
        let mut stack: Vec<usize> = Vec::new();
        stack.push(start);
        proof {
            let name = self.name(start as int);
            law_reaching_is_an_equivalence(relays, name, name, name);
            assert(stack@ =~= seq![start]);
            assert(stack@[0] == start);
            assert(among(stack@, start as int));
            lemma_unmarked_bounded(marks);
        }
        while stack.len() > 0
            invariant
                self.wf(relays),
                n == self.size(),
                start < n,
                marks.len() == n,
                visited@.len() == n,
                unmarked(marks) <= n,
                component@.len() + unmarked(visited@) == unmarked(marks),
                component@.no_duplicates(),
                forall|k: int|
                    0 <= k < component@.len() ==> (#[trigger] component@[k]) < n
                        && !marks[component@[k] as int] && reaches(
                        relays,
                        self.name(start as int),
                        self.name(component@[k] as int),
                    ),
                forall|k: int|
                    0 <= k < stack@.len() ==> (#[trigger] stack@[k]) < n && reaches(
                        relays,
                        self.name(start as int),
                        self.name(stack@[k] as int),
                    ),
                forall|a: int|
                    0 <= a < n ==> #[trigger] visited@[a] == (marks[a] || among(component@, a)),
                forall|a: int, b: int|
                    among(component@, a) && 0 <= b < n && #[trigger] self.link(a, b) ==> visited@[b]
                        || among(stack@, b),
                visited@[start as int] || among(stack@, start as int),
                !marks[start as int] ==> if component@.len() == 0 {
                    stack@ == seq![start]
                } else {
                    component@[0] == start
                },
            decreases unmarked(visited@), stack@.len(),
        {
            let ghost stack0 = stack@;
            let ghost visited0 = visited@;
            let ghost component0 = component@;
            let node: usize = stack[stack.len() - 1];
            stack.pop();
            proof {
                assert(stack0 =~= stack@.push(node));
                lemma_among_push(stack@, node);
                assert(stack0[stack0.len() - 1] == node);
            }
            if !visited[node] {
                proof {
                    lemma_mark(visited@, node as int);
                    lemma_among_push(component@, node);
                    assert(!among(component0, node as int));
                }
                visited.set(node, true);
                component.push(node);
                assert(component@.no_duplicates()) by {
                    assert forall|k: int| 0 <= k < component0.len() implies #[trigger] component0[k]
                        != node by {
                        assert(component0[k] != node || among(component0, node as int));
                    }
                }
                let ghost below = stack@;
                let mut j: usize = 0;
                while j < n
                    invariant
                        self.wf(relays),
                        n == self.size(),
                        start < n,
                        node < n,
                        j <= n,
                        visited@.len() == n,
                        reaches(relays, self.name(start as int), self.name(node as int)),
                        forall|k: int|
                            0 <= k < stack@.len() ==> (#[trigger] stack@[k]) < n && reaches(
                                relays,
                                self.name(start as int),
                                self.name(stack@[k] as int),
                            ),
                        forall|b: int|
                            0 <= b < j && #[trigger] self.link(node as int, b) ==> visited@[b]
                                || among(stack@, b),
                        forall|b: int| #[trigger] among(below, b) ==> among(stack@, b),
                    decreases n - j,
                {
                    let ghost so_far = stack@;
                    assert(self.link(node as int, j as int) == self.links@[node as int]@[j as int]);
                    if self.links[node][j] && !visited[j] {
                        proof {
                            lemma_among_push(stack@, j);
                            lemma_reaches_on(
                                relays,
                                self.name(start as int),
                                self.name(node as int),
                                self.name(j as int),
                            );
                        }
                        stack.push(j);
                    }
                    j = j + 1;
                }
            }
        }
        component
    }
}

/// The identities at some places.
spec fn names_at(graph: RelayGraph, places: Seq<usize>) -> Seq<Seq<char>> {
    places.map_values(|k: usize| graph.name(k as int))
}

proof fn lemma_links_bounded(
    relays: Seq<RelayInfo>,
    heads: Seq<Seq<char>>,
    nodes: Seq<Seq<char>>,
)
    ensures
        links_between(relays, heads, nodes) <= heads.len() * nodes.len(),
    decreases heads.len(),
{
    if heads.len() > 0 {
        lemma_links_bounded(relays, heads.drop_last(), nodes);
        lemma_row_bounded(relays, heads.last(), nodes);
        let (h, n) = (heads.len() as int, nodes.len() as int);
        assert((h - 1) * n + n == h * n) by (nonlinear_arith);
    }
}

proof fn lemma_row_bounded(relays: Seq<RelayInfo>, a: Seq<char>, nodes: Seq<Seq<char>>)
    ensures
        links_from(relays, a, nodes) <= nodes.len(),
    decreases nodes.len(),
{
    if nodes.len() > 0 {
        lemma_row_bounded(relays, a, nodes.drop_last());
    }
}

proof fn lemma_links_part(
    relays: Seq<RelayInfo>,
    heads: Seq<Seq<char>>,
    nodes: Seq<Seq<char>>,
    i: int,
)
    requires
        0 <= i <= heads.len(),
    ensures
        links_between(relays, heads.take(i), nodes) <= links_between(relays, heads, nodes),
    decreases heads.len() - i,
{
    if i < heads.len() {
        lemma_links_part(relays, heads, nodes, i + 1);
        assert(heads.take(i + 1).drop_last() =~= heads.take(i));
    } else {
        assert(heads.take(i) =~= heads);
    }
}

impl RelayGraph {
    /// Counts the links among some places
    fn count_links(&self, places: &Vec<usize>, Ghost(relays): Ghost<Seq<RelayInfo>>) -> (r: usize)
        requires
            self.wf(relays),
            forall|k: int| 0 <= k < places@.len() ==> (#[trigger] places@[k]) < self.size(),
            places@.len() * places@.len() <= usize::MAX,
        ensures
            r == links_between(relays, names_at(*self, places@), names_at(*self, places@)),
    {
        let ghost nodes = names_at(*self, places@);
        let mut count: usize = 0;
        let mut i: usize = 0;
        proof {
            lemma_links_bounded(relays, nodes, nodes);
            assert(nodes.take(0) =~= Seq::<Seq<char>>::empty());
        }
        while i < places.len()
            invariant
                self.wf(relays),
                forall|k: int| 0 <= k < places@.len() ==> (#[trigger] places@[k]) < self.size(),
                i <= places@.len(),
                nodes == names_at(*self, places@),
                links_between(relays, nodes, nodes) <= usize::MAX,
                count == links_between(relays, nodes.take(i as int), nodes),
            decreases places@.len() - i,
        {
            let mut row: usize = 0;
            let mut j: usize = 0;
            assert(nodes.take(0) =~= Seq::<Seq<char>>::empty());
            while j < places.len()
                invariant
                    self.wf(relays),
                    forall|k: int| 0 <= k < places@.len() ==> (#[trigger] places@[k]) < self.size(),
                    i < places@.len(),
                    j <= places@.len(),
                    nodes == names_at(*self, places@),
                    row <= j,
                    row == links_from(relays, nodes[i as int], nodes.take(j as int)),
                decreases places@.len() - j,
            {
                assert(nodes.take(j + 1).drop_last() =~= nodes.take(j as int));
                assert(self.link(places@[i as int] as int, places@[j as int] as int) == linked(
                    relays,
                    nodes[i as int],
                    nodes[j as int],
                ));
                if self.links[places[i]][places[j]] {
                    row = row + 1;
                }
                j = j + 1;
            }
            proof {
                assert(nodes.take(j as int) =~= nodes);
                assert(nodes.take(i + 1).drop_last() =~= nodes.take(i as int));
                lemma_links_part(relays, nodes, nodes, i + 1);
            }
            count = count + row;
            i = i + 1;
        }
        assert(nodes.take(i as int) =~= nodes);
        count
    }

    /// Calculate graph density: the share of links among some places, none where
    /// there are fewer than two
    fn calculate_density(&self, places: &Vec<usize>, Ghost(relays): Ghost<Seq<RelayInfo>>) -> (r:
        Ratio)
        requires
            self.wf(relays),
            forall|k: int| 0 <= k < places@.len() ==> (#[trigger] places@[k]) < self.size(),
            places@.len() * places@.len() <= usize::MAX,
        ensures
            r == (if places@.len() < 2 {
                Ratio { num: 0, den: 1 }
            } else {
                density_of(relays, names_at(*self, places@))
            }),
            places@.len() >= 2 ==> r.num == links_between(
                relays,
                names_at(*self, places@),
                names_at(*self, places@),
            ) && r.den == places@.len() * (places@.len() - 1),
    {
        if places.len() < 2 {
            return Ratio::new(0, 1);
        }
        let edges: usize = self.count_links(places, Ghost(relays));
        proof {
            let len = places@.len() as int;
            assert(len * (len - 1) <= len * len) by (nonlinear_arith)
                requires
                    len >= 0,
            ;
        }
        let most: usize = places.len() * (places.len() - 1);
        Ratio::new(edges as u64, most as u64)
    }

    /// The identities at some places
    fn collect_names(&self, places: &Vec<usize>) -> (r: Vec<String>)
        requires
            forall|k: int| 0 <= k < places@.len() ==> (#[trigger] places@[k]) < self.size(),
        ensures
            texts(r@) == names_at(*self, places@),
    {
        let mut r: Vec<String> = Vec::new();
        let mut i: usize = 0;
        while i < places.len()
            invariant
                forall|k: int| 0 <= k < places@.len() ==> (#[trigger] places@[k]) < self.size(),
                i <= places@.len(),
                r@.len() == i,
                forall|k: int|
                    0 <= k < i ==> (#[trigger] r@[k])@ == self.name(places@[k] as int),
            decreases places@.len() - i,
        {
            r.push(self.names[places[i]].clone());
            i = i + 1;
        }
        assert(texts(r@) =~= names_at(*self, places@));
        r
    }

    /// A component that was found from a place with nothing but whole components
    /// marked before is whole.
    proof fn lemma_component(
        self,
        relays: Seq<RelayInfo>,
        start: int,
        before: Seq<bool>,
        after: Seq<bool>,
        places: Seq<usize>,
    )
        requires
            self.wf(relays),
            0 <= start < self.size(),
            before.len() == self.size(),
            after.len() == self.size(),
            self.closed_under_links(before),
            places.no_duplicates(),
            forall|k: int|
                0 <= k < places.len() ==> (#[trigger] places[k]) < self.size()
                    && !before[places[k] as int] && reaches(
                    relays,
                    self.name(start),
                    self.name(places[k] as int),
                ),
            forall|a: int|
                0 <= a < self.size() ==> #[trigger] after[a] == (before[a] || among(places, a)),
            forall|a: int, b: int|
                among(places, a) && 0 <= b < self.size() && #[trigger] self.link(a, b) ==> after[b],
        ensures
            hangs_together(relays, names_at(self, places)),
            self.closed_under_links(after),
            forall|a: int|
                0 <= a < self.size() ==> (names_at(self, places).contains(#[trigger] self.name(a))
                    <==> among(places, a)),
    {
        let members = names_at(self, places);
        assert forall|a: int| 0 <= a < self.size() implies (members.contains(
            #[trigger] self.name(a),
        ) <==> among(places, a)) by {
            if members.contains(self.name(a)) {
                let k = choose|k: int| 0 <= k < members.len() && members[k] == self.name(a);
                assert(self.name(places[k] as int) == self.name(a));
                assert(self.names@[places[k] as int]@ == self.names@[a]@);
                assert(places[k] == a);
            }
            if among(places, a) {
                let k = choose|k: int| 0 <= k < places.len() && #[trigger] places[k] == a;
                assert(members[k] == self.name(a));
            }
        }
        assert(members.no_duplicates()) by {
            assert forall|i: int, j: int|
                0 <= i < members.len() && 0 <= j < members.len() && i != j implies members[i]
                != members[j] by {
                assert(places[i] != places[j]);
                assert(self.names@[places[i] as int]@ != self.names@[places[j] as int]@);
            }
        }
        assert forall|x: Seq<char>| #[trigger] members.contains(x) implies known(relays, x)
            && reaches(relays, self.name(start), x) by {
            let k = choose|k: int| 0 <= k < members.len() && members[k] == x;
            assert(known(relays, self.name(places[k] as int)));
        }
        assert forall|x: Seq<char>, y: Seq<char>|
            members.contains(x) && #[trigger] linked(relays, x, y) implies members.contains(y) by {
            let k = choose|k: int| 0 <= k < members.len() && members[k] == x;
            let a = places[k] as int;
            let (p, q) = choose|p: int, q: int|
                0 <= p < relays.len() && 0 <= q < relays.len() && p != q && (
                #[trigger] relays[p]).identity@ == x && (#[trigger] relays[q]).identity@ == y
                    && tied(relays[p], relays[q]);
            assert(listed(self.names@, relays[q].identity@));
            let b = choose|b: int| 0 <= b < self.size() && (#[trigger] self.names@[b])@ == y;
            assert(self.name(b) == y);
            assert(self.link(a, b));
            assert(among(places, a));
            assert(after[b]);
            if before[b] {
                law_links_are_mutual(relays, x, y);
                assert(self.link(b, a));
                assert(before[a]);
            }
            assert(among(places, b));
        }
        lemma_hangs_together(relays, members, self.name(start));
    }
}

impl RelayGraph {
    /// Whether the members begin with the name at a place before `start`.
    spec fn headed_before(self, members: Seq<Seq<char>>, start: int) -> bool {
        exists|s: int| 0 <= s < start && members[0] == #[trigger] self.name(s)
    }

    /// A group whose places begin with the first of them, after those of the
    /// groups so far, is the next in order.
    proof fn lemma_next_in_order(
        self,
        relays: Seq<RelayInfo>,
        found: Seq<(Seq<Seq<char>>, Ratio)>,
        start: int,
        places: Seq<usize>,
        density: Ratio,
    )
        requires
            self.wf(relays),
            0 <= start < self.size(),
            in_list_order(relays, found),
            forall|f: int|
                0 <= f < found.len() ==> self.headed_before(#[trigger] found[f].0, start),
            places.len() > 0,
            places[0] == start,
            forall|k: int| 0 <= k < places.len() ==> start <= #[trigger] places[k] < self.size(),
        ensures
            in_list_order(relays, found.push((names_at(self, places), density))),
    {
        let members = names_at(self, places);
        let all = found.push((members, density));
        assert(members[0] == self.name(start));
        assert forall|f: int, j: int|
            0 <= f < all.len() && 0 <= j < relays.len() && #[trigger] all[f].0.contains(
                (#[trigger] relays[j]).identity@,
            ) implies relays[j].identity@ == all[f].0[0] || comes_before(
            relays,
            all[f].0[0],
            j,
        ) by {
            if f < found.len() {
                assert(all[f] == found[f]);
                assert(found[f].0.contains(relays[j].identity@));
            } else {
                let k = choose|k: int| 0 <= k < members.len() && members[k]
                    == relays[j].identity@;
                let a = places[k] as int;
                assert(self.names@[a]@ == relays[j].identity@);
                if a != start {
                    assert(comes_before(relays, self.names@[start]@, j));
                }
            }
        }
        assert forall|f: int, g: int, j: int|
            0 <= f < g < all.len() && 0 <= j < relays.len() && (#[trigger] relays[j]).identity@ == (
            #[trigger] all[g]).0[0] implies comes_before(relays, (#[trigger] all[f]).0[0], j) by {
            assert(all[f] == found[f]);
            if g < found.len() {
                assert(all[g] == found[g]);
            } else {
                assert(self.headed_before(found[f].0, start));
                let s = choose|s: int| 0 <= s < start && found[f].0[0] == #[trigger] self.name(s);
                assert(self.names@[start]@ == relays[j].identity@);
                assert(comes_before(relays, self.names@[s]@, j));
            }
        }
    }
}

/// Finds the large and tight groups of relays, in the order of the list
pub fn find_clusters(relays: &[RelayInfo]) -> (r: Vec<Cluster>)
    requires
        relays@.len() * relays@.len() <= usize::MAX,
    ensures
        all_clusters(relays@, cluster_views(r@)),
        in_list_order(relays@, cluster_views(r@)),
{
    let graph = build_graph(relays);
    let n: usize = graph.names.len();
    let mut visited: Vec<bool> = Vec::new();
    let mut i: usize = 0;
    while i < n
        invariant
            i <= n,
            visited@.len() == i,
            forall|k: int| 0 <= k < i ==> !#[trigger] visited@[k],
        decreases n - i,
    {
        visited.push(false);
        i = i + 1;
    }
    let mut found: Vec<Cluster> = Vec::new();
    let mut start: usize = 0;
    while start < n
        invariant
            relays@.len() * relays@.len() <= usize::MAX,
            graph.wf(relays@),
            n == graph.size(),
            start <= n,
            visited@.len() == n,
            graph.closed_under_links(visited@),
            forall|k: int| 0 <= k < start ==> #[trigger] visited@[k],
            forall|f: int|
                0 <= f < found@.len() ==> sound_cluster(
                    relays@,
                    #[trigger] cluster_views(found@)[f],
                ),
            forall|f: int, a: int|
                0 <= f < found@.len() && 0 <= a < n && cluster_views(found@)[f].0.contains(
                    #[trigger] graph.name(a),
                ) && #[trigger] within(f) ==> visited@[a],
            forall|f: int, g: int, x: Seq<char>|
                0 <= f < g < found@.len() && #[trigger] cluster_views(found@)[f].0.contains(x)
                    ==> !#[trigger] cluster_views(found@)[g].0.contains(x),
            forall|a: int|
                0 <= a < n && #[trigger] visited@[a] ==> in_cluster(
                    cluster_views(found@),
                    graph.name(a),
                ) || harmless(relays@, graph.name(a)),
            forall|f: int|
                0 <= f < found@.len() ==> graph.headed_before(
                    #[trigger] cluster_views(found@)[f].0,
                    start as int,
                ),
            in_list_order(relays@, cluster_views(found@)),
        decreases n - start,
    {
        if !visited[start] {
            let ghost before = visited@;
            let ghost found0 = cluster_views(found@);
            let places = graph.find_connected_component(start, &mut visited, Ghost(relays@));
            let ghost members = names_at(graph, places@);
            proof {
                graph.lemma_component(relays@, start as int, before, visited@, places@);
                let (len, all) = (places@.len() as int, relays@.len() as int);
                assert(len * len <= all * all) by (nonlinear_arith)
                    requires
                        0 <= len <= all,
                ;
                lemma_links_bounded(relays@, members, members);
            }
            let mut suspicious = false;
            if places.len() >= 4 {
                let density = graph.calculate_density(&places, Ghost(relays@));
                if density.exceeds(&Ratio::new(7, 10)) {
                    suspicious = true;
                    let cluster = Cluster { members: graph.collect_names(&places), density };
                    found.push(cluster);
                    assert(cluster_views(found@) =~= found0.push((members, density)));
                    assert(sound_cluster(relays@, (members, density)));
                }
            }
            proof {
                let all = cluster_views(found@);
                assert(!suspicious ==> all == found0);
                assert(suspicious ==> all == found0.push((members, density_of(relays@, members))));
                assert(!suspicious ==> !dense(relays@, members));
                assert forall|a: int| 0 <= a < n && #[trigger] visited@[a] implies in_cluster(
                    all,
                    graph.name(a),
                ) || harmless(relays@, graph.name(a)) by {
                    if before[a] {
                        if in_cluster(found0, graph.name(a)) {
                            let f = choose|f: int|
                                0 <= f < found0.len() && (#[trigger] found0[f]).0.contains(
                                    graph.name(a),
                                );
                            assert(all[f] == found0[f]);
                        }
                    } else {
                        assert(among(places@, a));
                        assert(members.contains(graph.name(a)));
                        if suspicious {
                            assert(all[found0.len() as int].0.contains(graph.name(a)));
                        }
                    }
                }
                assert forall|f: int, a: int|
                    0 <= f < found@.len() && 0 <= a < n && all[f].0.contains(
                        #[trigger] graph.name(a),
                    ) && #[trigger] within(f) implies visited@[a] by {
                    if f < found0.len() {
                        assert(all[f] == found0[f]);
                        assert(before[a]);
                    } else {
                        assert(among(places@, a));
                    }
                }
                assert forall|f: int, g: int, x: Seq<char>|
                    0 <= f < g < found@.len() && #[trigger] all[f].0.contains(x) implies !#[trigger] all[g].0.contains(x) by {
                    assert(all[f] == found0[f]);
                    if g < found0.len() {
                        assert(all[g] == found0[g]);
                    } else if members.contains(x) {
                        let k = choose|k: int| 0 <= k < members.len() && members[k] == x;
                        let a = places@[k] as int;
                        assert(graph.name(a) == x);
                        assert(within(f));
                        assert(before[a]);
                    }
                }
                if suspicious {
                    graph.lemma_next_in_order(
                        relays@,
                        found0,
                        start as int,
                        places@,
                        density_of(relays@, members),
                    );
                }
                assert forall|f: int| 0 <= f < found@.len() implies graph.headed_before(
                    #[trigger] all[f].0,
                    start + 1,
                ) by {
                    if f < found0.len() {
                        assert(all[f] == found0[f]);
                        assert(graph.headed_before(found0[f].0, start as int));
                    } else {
                        assert(all[f].0[0] == graph.name(start as int));
                    }
                }
                assert forall|f: int| 0 <= f < found@.len() implies sound_cluster(
                    relays@,
                    #[trigger] all[f],
                ) by {
                    if f < found0.len() {
                        assert(all[f] == found0[f]);
                    }
                }
            }
        }
        start = start + 1;
    }
    proof {
        let all = cluster_views(found@);
        assert forall|x: Seq<char>| #[trigger] known(relays@, x) implies in_cluster(all, x)
            || harmless(relays@, x) by {
            let i = choose|i: int| 0 <= i < relays@.len() && (#[trigger] relays@[i]).identity@ == x;
            assert(listed(graph.names@, relays@[i].identity@));
            let a = choose|a: int| 0 <= a < n && (#[trigger] graph.names@[a])@ == x;
            assert(graph.name(a) == x);
            assert(visited@[a]);
        }
    }
    found
}

/// Holds of every place; names a place to the prover.
spec fn within(f: int) -> bool {
    true
}

/// Whether a text is the name of a group found in the graph, with some number.
pub open spec fn graph_group_name(name: Seq<char>) -> bool {
    exists|n: u32| name == "graph-"@ + #[trigger] decimal_text(n as nat)
}

impl SybilDetector {
    /// Graph-based Sybil detection
    /// Identifies tightly connected Sybil clusters, under random names
    pub fn detect_graph_based(&self, relays: &[RelayInfo], now: Instant) -> (r: Vec<SybilGroup>)
        requires
            relays@.len() * relays@.len() <= usize::MAX,
        ensures
            all_clusters(relays@, group_clusters(r@)),
            in_list_order(relays@, group_clusters(r@)),
            forall|i: int|
                0 <= i < r@.len() ==> (#[trigger] r@[i]).detected_at == now && graph_group_name(
                    r@[i].group_id@,
                ),
    {
        let found = find_clusters(relays);
        let ghost views = cluster_views(found@);
        let ghost all = found@;
        let mut groups: Vec<SybilGroup> = Vec::new();
        for cluster in it: found
            invariant
                it.seq() == all,
                views == cluster_views(all),
                groups@.len() == it.index(),
                group_clusters(groups@) == views.take(it.index()),
                forall|i: int|
                    0 <= i < groups@.len() ==> (#[trigger] groups@[i]).detected_at == now
                        && graph_group_name(groups@[i].group_id@),
        {
            let ghost before = groups@;
            let number: u32 = random::random_u32();
            let group_id = text::joined("graph-", text::decimal(number as u64).as_str());
            assert(graph_group_name(group_id@)) by {
                assert(group_id@ == "graph-"@ + decimal_text(number as nat));
            }
            let ghost view = (texts(cluster.members@), cluster.density);
            groups.push(
                SybilGroup {
                    group_id,
                    members: cluster.members,
                    confidence: cluster.density,
                    detected_at: now,
                },
            );
            proof {
                assert(views[it.index()] == view);
                assert(group_clusters(groups@) =~= group_clusters(before).push(view));
                assert(views.take(it.index() + 1) =~= views.take(it.index()).push(view));
            }
        }
        assert(views.take(views.len() as int) =~= views);
        groups
    }
}

/// A group that is found is whole: it holds, besides any of its members, just what
/// links lead to from that one, so that identities that are linked are in one group
/// or in none; it has four members or more, each of which is that of a relay.
pub proof fn law_groups_are_whole(
    relays: Seq<RelayInfo>,
    found: Seq<(Seq<Seq<char>>, Ratio)>,
    i: int,
    x: Seq<char>,
    y: Seq<char>,
)
    requires
        all_clusters(relays, found),
        0 <= i < found.len(),
        found[i].0.contains(x),
    ensures
        found[i].0.contains(y) <==> reaches(relays, x, y),
        linked(relays, x, y) ==> found[i].0.contains(y),
        known(relays, x),
        found[i].0.no_duplicates(),
        found[i].0.len() >= 4,
        found[i].1 == density_of(relays, found[i].0),
        forall|j: int| 0 <= j < found.len() && j != i ==> !(#[trigger] found[j]).0.contains(x),
{
    assert(sound_cluster(relays, found[i]));
    assert(hangs_together(relays, found[i].0));
    law_links_reach(relays, x, y);
    assert(reaches(relays, x, y) <==> found[i].0.contains(y));
    assert forall|j: int| 0 <= j < found.len() && j != i implies !(
    #[trigger] found[j]).0.contains(x) by {
        if j < i && found[j].0.contains(x) {
            assert(!found[i].0.contains(x));
        }
    }
}

} // verus!
