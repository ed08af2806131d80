//! Finding the domain of datasets that name none, from the domains of the
//! datasets that they are linked with.

use crate::data::{Dataset, DatasetView, LinkView};
use crate::graph::{entries, Entry};
use vstd::prelude::*;

verus! {

/// The domains that are known by name: pairs of a name and a domain, in
/// the order in which they became known. A later pair wins over an
/// earlier one with the same name.
pub type Known = Seq<(Seq<char>, Seq<char>)>;

/// The votes for each domain, in the order in which the domains were
/// first voted for.
pub type Tally = Seq<(Seq<char>, nat)>;

/// The domain that is known under `name`; empty where none is.
pub open spec fn known(table: Known, name: Seq<char>) -> Seq<char>
    decreases table.len(),
{
    if table.len() == 0 {
        Seq::empty()
    } else if table.last().0 == name {
        table.last().1
    } else {
        known(table.drop_last(), name)
    }
}

/// The place of `domain` in the tally, or -1 where it has no votes yet.
pub open spec fn slot(tally: Tally, domain: Seq<char>) -> int
    decreases tally.len(),
{
    if tally.len() == 0 {
        -1
    } else if tally.last().0 == domain {
        tally.len() - 1
    } else {
        slot(tally.drop_last(), domain)
    }
}

/// The tally with one more vote for `domain`.
pub open spec fn bump(tally: Tally, domain: Seq<char>) -> Tally {
    let at = slot(tally, domain);
    if at >= 0 {
        tally.update(at, (domain, tally[at].1 + 1))
    } else {
        tally.push((domain, 1))
    }
}

/// The domain with the most votes and the number of its votes; among
/// domains with the same number, the one that was voted for first. Empty,
/// with -1, where nothing was voted for.
pub open spec fn best(tally: Tally) -> (Seq<char>, int)
    decreases tally.len(),
{
    if tally.len() == 0 {
        (Seq::empty(), -1)
    } else {
        let earlier = best(tally.drop_last());
        if tally.last().1 > earlier.1 {
            (tally.last().0, tally.last().1 as int)
        } else {
            earlier
        }
    }
}

/// The pairs of a table of strings.
pub open spec fn table_view(table: Seq<(String, String)>) -> Known {
    Seq::new(table.len(), |i: int| (table[i].0@, table[i].1@))
}

/// The pairs of a tally of strings.
pub open spec fn tally_view(tally: Seq<(String, u128)>) -> Tally {
    Seq::new(tally.len(), |i: int| (tally[i].0@, tally[i].1 as nat))
}

/// The last pair of the table with the given name.
fn last_entry(table: &Vec<(String, String)>, name: &String) -> (at: Option<usize>)
    ensures
        match at {
            Some(i) => i < table@.len() && known(table_view(table@), name@) == table@[i as int].1@,
            None => known(table_view(table@), name@) == Seq::<char>::empty(),
        },
{
    let ghost whole = table_view(table@);
    let mut i: usize = table.len();
    assert(whole.take(i as int) == whole);
    while i > 0
        invariant
            i <= table@.len(),
            whole == table_view(table@),
            known(whole, name@) == known(whole.take(i as int), name@),
        decreases i,
    {
        i -= 1;
        proof {
            assert(whole.take(i + 1).drop_last() == whole.take(i as int));
            assert(whole.take(i + 1).last() == whole[i as int]);
        }
        if table[i].0 == *name {
            return Some(i);
        }
    }
    None
}

/// The place of `domain` in the tally.
fn find_slot(tally: &Vec<(String, u128)>, domain: &String) -> (at: Option<usize>)
    ensures
        match at {
            Some(i) => i < tally@.len() && slot(tally_view(tally@), domain@) == i,
            None => slot(tally_view(tally@), domain@) == -1,
        },
{
    let ghost whole = tally_view(tally@);
    let mut i: usize = tally.len();
    assert(whole.take(i as int) == whole);
    while i > 0
        invariant
            i <= tally@.len(),
            whole == tally_view(tally@),
            slot(whole, domain@) == slot(whole.take(i as int), domain@),
        decreases i,
    {
        i -= 1;
        proof {
            assert(whole.take(i + 1).drop_last() == whole.take(i as int));
            assert(whole.take(i + 1).last() == whole[i as int]);
        }
        if tally[i].0 == *domain {
            return Some(i);
        }
    }
    None
}

/// No domain of the tally has more than `limit` votes.
pub open spec fn votes_below(tally: Tally, limit: int) -> bool {
    forall|i: int| 0 <= i < tally.len() ==> (#[trigger] tally[i]).1 <= limit
}

/// Gives `domain` one more vote.
fn bump_tally(tally: &mut Vec<(String, u128)>, domain: &String, Ghost(limit): Ghost<int>)
    requires
        votes_below(tally_view(old(tally)@), limit),
        0 <= limit < u128::MAX,
    ensures
        tally_view(final(tally)@) == bump(tally_view(old(tally)@), domain@),
        votes_below(tally_view(final(tally)@), limit + 1),
{
    let ghost before = tally_view(tally@);
    match find_slot(tally, domain) {
        Some(i) => {
            assert(before[i as int].1 <= limit);
            let votes = tally[i].1 + 1;
            tally.set(i, (domain.clone(), votes));
            assert(tally_view(tally@) =~= bump(before, domain@));
        },
        None => {
            tally.push((domain.clone(), 1));
            assert(tally_view(tally@) =~= bump(before, domain@));
        },
    }
    let ghost now = tally_view(tally@);
    assert forall|i: int| 0 <= i < now.len() implies (#[trigger] now[i]).1 <= limit + 1 by {
        let at = slot(before, domain@);
        if i < before.len() {
            assert(before[i].1 <= limit);
            if i != at {
                assert(now[i] == before[i]);
            }
        }
    }
}

/// The place of the domain with the most votes.
fn best_slot(tally: &Vec<(String, u128)>) -> (at: Option<usize>)
    ensures
        match at {
            Some(i) => i < tally@.len() && best(tally_view(tally@)).0 == tally@[i as int].0@,
            None => best(tally_view(tally@)).0 == Seq::<char>::empty(),
        },
{
    let ghost whole = tally_view(tally@);
    let mut at: Option<usize> = None;
    let mut most: u128 = 0;
    let mut i: usize = 0;
    assert(whole.take(0) == Seq::<(Seq<char>, nat)>::empty());
    while i < tally.len()
        invariant
            i <= tally@.len(),
            whole == tally_view(tally@),
            match at {
                Some(k) => k < i && best(whole.take(i as int)) == (
                    tally@[k as int].0@,
                    most as int,
                ),
                None => best(whole.take(i as int)) == (Seq::<char>::empty(), -1int),
            },
        decreases tally@.len() - i,
    {
        proof {
            assert(whole.take(i + 1).drop_last() == whole.take(i as int));
            assert(whole.take(i + 1).last() == whole[i as int]);
        }
        let more = match at {
            Some(_) => tally[i].1 > most,
            None => true,
        };
        if more {
            at = Some(i);
            most = tally[i].1;
        }
        i += 1;
    }
    assert(whole.take(whole.len() as int) == whole);
    at
}

/// The tally after the links of a dataset have voted: each link votes for
/// the domain that is known under its target, if one is.
pub open spec fn tally_links(links: Seq<LinkView>, table: Known, tally: Tally) -> Tally
    decreases links.len(),
{
    if links.len() == 0 {
        tally
    } else {
        let earlier = tally_links(links.drop_last(), table, tally);
        let domain = known(table, links.last().target);
        if domain.len() > 0 {
            bump(earlier, domain)
        } else {
            earlier
        }
    }
}

/// The tally after the links of another dataset, whose domain is
/// `domain`, have voted: each of them that points to `name` gives
/// `domain` a vote, if a domain it is.
pub open spec fn tally_sources(
    links: Seq<LinkView>,
    domain: Seq<char>,
    name: Seq<char>,
    tally: Tally,
) -> Tally
    decreases links.len(),
{
    if links.len() == 0 {
        tally
    } else {
        let earlier = tally_sources(links.drop_last(), domain, name, tally);
        if links.last().target == name && domain.len() > 0 {
            bump(earlier, domain)
        } else {
            earlier
        }
    }
}

/// The tally after the links that point to `name` from the datasets in
/// `some` have voted, each for the domain known under the identifier of
/// its dataset.
pub open spec fn tally_incoming(some: Seq<Entry>, name: Seq<char>, table: Known, tally: Tally) -> Tally
    decreases some.len(),
{
    if some.len() == 0 {
        tally
    } else {
        let d = some.last().1;
        tally_sources(
            d.links,
            known(table, d.identifier),
            name,
            tally_incoming(some.drop_last(), name, table, tally),
        )
    }
}

/// The votes of the neighbours of dataset `x`: first those that it links
/// to, then those that link to it.
pub open spec fn neighbour_tally(data: Seq<Entry>, x: int, table: Known) -> Tally {
    tally_incoming(
        data,
        data[x].1.identifier,
        table,
        tally_links(data[x].1.links, table, Seq::empty()),
    )
}

/// Counts the votes of the neighbours of dataset `x`.
fn tally_neighbours(data: &Vec<(String, Dataset)>, x: usize, table: &Vec<(String, String)>) -> (tally:
    Vec<(String, u128)>)
    requires
        x < data@.len(),
    ensures
        tally_view(tally@) == neighbour_tally(entries(data@), x as int, table_view(table@)),
{
    let ghost all = entries(data@);
    let ghost tv = table_view(table@);
    let dataset = &data[x].1;
    let name = &dataset.identifier;
    let ghost links = all[x as int].1.links;
    let mut tally: Vec<(String, u128)> = Vec::new();
    let own = dataset.links.len();
    let mut b: usize = 0;
    assert(links.take(0) == Seq::<LinkView>::empty());
    assert(tally_view(tally@) =~= Seq::<(Seq<char>, nat)>::empty());
    while b < own
        invariant
            b <= own,
            own == dataset.links@.len(),
            links == dataset@.links,
            tv == table_view(table@),
            tally_view(tally@) == tally_links(links.take(b as int), tv, Seq::empty()),
            votes_below(tally_view(tally@), b as int),
        decreases own - b,
    {
        proof {
            assert(links.take(b + 1).drop_last() == links.take(b as int));
            assert(links.take(b + 1).last() == dataset.links@[b as int]@);
        }
        let ghost before = tally_view(tally@);
        match last_entry(table, &dataset.links[b].target) {
            Some(i) => {
                if !table[i].1.as_str().is_empty() {
                    bump_tally(&mut tally, &table[i].1, Ghost(b as int));
                }
            },
            None => {},
        }
        assert forall|i: int| 0 <= i < tally_view(tally@).len() implies (#[trigger] tally_view(
            tally@,
        )[i]).1 <= b + 1 by {
            if tally_view(tally@) == before {
                assert(before[i].1 <= b);
            }
        }
        b += 1;
    }
    assert(links.take(links.len() as int) == links);
    let ghost first = tally_view(tally@);
    let count = data.len();
    let mut y: usize = 0;
    assert(all.take(0) == Seq::<Entry>::empty());
    while y < count
        invariant
            y <= count,
            count == data@.len(),
            own <= usize::MAX,
            all == entries(data@),
            tv == table_view(table@),
            name@ == all[x as int].1.identifier,
            x < data@.len(),
            tally_view(tally@) == tally_incoming(all.take(y as int), name@, tv, first),
            votes_below(tally_view(tally@), own + y * usize::MAX),
        decreases count - y,
    {
        let source = &data[y].1;
        let ghost theirs = all[y as int].1.links;
        let ghost start = tally_view(tally@);
        let at = last_entry(table, &source.identifier);
        let votes = match at {
            Some(i) => !table[i].1.as_str().is_empty(),
            None => false,
        };
        let ghost domain = known(tv, source.identifier@);
        proof {
            assert(all.take(y + 1).drop_last() == all.take(y as int));
            assert(all.take(y + 1).last() == all[y as int]);
            assert(votes == (domain.len() > 0));
            lemma_votes_fit(own as int, y as int, 0);
        }
        let their = source.links.len();
        let mut b: usize = 0;
        assert(theirs.take(0) == Seq::<LinkView>::empty());
        while b < their
            invariant
                b <= their,
                their == source.links@.len(),
                theirs == source@.links,
                y < count,
                count == data@.len(),
                own <= usize::MAX,
                tv == table_view(table@),
                votes == (domain.len() > 0),
                domain == known(tv, source.identifier@),
                votes ==> at is Some && at->0 < table@.len() && table@[at->0 as int].1@ == domain,
                tally_view(tally@) == tally_sources(theirs.take(b as int), domain, name@, start),
                votes_below(tally_view(tally@), own + y * usize::MAX + b),
            decreases their - b,
        {
            proof {
                assert(theirs.take(b + 1).drop_last() == theirs.take(b as int));
                assert(theirs.take(b + 1).last() == source.links@[b as int]@);
                lemma_votes_fit(own as int, y as int, b as int);
            }
            let ghost before = tally_view(tally@);
            if votes && source.links[b].target == *name {
                match at {
                    Some(i) => {
                        bump_tally(&mut tally, &table[i].1, Ghost(own + y * usize::MAX + b));
                    },
                    None => {},
                }
            }
            assert forall|i: int| 0 <= i < tally_view(tally@).len() implies (#[trigger] tally_view(
                tally@,
            )[i]).1 <= own + y * usize::MAX + b + 1 by {
                if tally_view(tally@) == before {
                    assert(before[i].1 <= own + y * usize::MAX + b);
                }
            }
            b += 1;
        }
        proof {
            assert(theirs.take(theirs.len() as int) == theirs);
            assert((y + 1) * usize::MAX == y * usize::MAX + usize::MAX) by (nonlinear_arith);
            assert forall|i: int| 0 <= i < tally_view(tally@).len() implies (#[trigger] tally_view(
                tally@,
            )[i]).1 <= own + (y + 1) * usize::MAX by {}
        }
        y += 1;
    }
    assert(all.take(all.len() as int) == all);
    tally
}

/// The votes counted so far fit the counter.
proof fn lemma_votes_fit(own: int, y: int, b: int)
    requires
        0 <= own <= usize::MAX,
        0 <= y < usize::MAX,
        0 <= b <= usize::MAX,
    ensures
        0 <= own + y * usize::MAX + b < u128::MAX,
{
    let m = usize::MAX as int;
    assert(m <= 0xffff_ffff_ffff_ffff);
    assert(0 <= y * m <= (m - 1) * m) by (nonlinear_arith)
        requires
            0 <= y <= m - 1,
            0 <= m,
    ;
    assert((m - 1) * m <= 0xffff_ffff_ffff_fffe * 0xffff_ffff_ffff_ffff) by (nonlinear_arith)
        requires
            0 <= m <= 0xffff_ffff_ffff_ffff,
    ;
}

/// The texts of a sequence of strings.
pub open spec fn texts(strings: Seq<String>) -> Seq<Seq<char>> {
    Seq::new(strings.len(), |i: int| strings[i]@)
}

/// One round over the first `upto` datasets: each that has no domain
/// takes the domain that most of its neighbours have, which from then on
/// is known under its identifier. A dataset whose neighbours have no
/// domain fails. The result is the domains, what is known, and the number
/// of datasets that failed.
pub open spec fn pass(data: Seq<Entry>, upto: nat, start: (Seq<Seq<char>>, Known)) -> (
    Seq<Seq<char>>,
    Known,
    nat,
)
    decreases upto,
{
    if upto == 0 {
        (start.0, start.1, 0)
    } else {
        let x = upto - 1;
        let s = pass(data, x as nat, start);
        if s.0[x].len() == 0 {
            let w = best(neighbour_tally(data, x, s.1)).0;
            if w.len() == 0 {
                (s.0, s.1, s.2 + 1)
            } else {
                (s.0.update(x, w), s.1.push((data[x].1.identifier, w)), s.2)
            }
        } else {
            s
        }
    }
}

/// The domains, and what is known, once a round fails as often as the
/// round before it did, which `last_fails` counts. No more than `rounds`
/// rounds are made.
pub open spec fn settle(
    data: Seq<Entry>,
    start: (Seq<Seq<char>>, Known),
    last_fails: nat,
    rounds: nat,
) -> (Seq<Seq<char>>, Known)
    decreases rounds,
{
    if rounds == 0 {
        start
    } else {
        let s = pass(data, data.len(), start);
        if s.2 == last_fails {
            (s.0, s.1)
        } else {
            settle(data, (s.0, s.1), s.2, (rounds - 1) as nat)
        }
    }
}

/// The domains that the datasets name.
pub open spec fn named_domains(data: Seq<Entry>) -> Seq<Seq<char>> {
    Seq::new(data.len(), |i: int| data[i].1.domain)
}

/// The domains that the datasets name, each under the key of its dataset.
pub open spec fn named_table(data: Seq<Entry>) -> Known {
    Seq::new(data.len(), |i: int| (data[i].0, data[i].1.domain))
}

/// The domains of the datasets once the domains of neighbours have been
/// handed on until a round brings nothing new. There are never more
/// rounds to make than datasets, and two.
pub open spec fn settled(data: Seq<Entry>) -> Seq<Seq<char>> {
    settle(data, (named_domains(data), named_table(data)), 0, data.len() + 2).0
}

/// The number of empty texts.
pub open spec fn empties(domains: Seq<Seq<char>>) -> nat
    decreases domains.len(),
{
    if domains.len() == 0 {
        0
    } else {
        empties(domains.drop_last()) + if domains.last().len() == 0 {
            1nat
        } else {
            0nat
        }
    }
}

/// A round fails once for each dataset that is left without a domain, and
/// leaves no more datasets without a domain than it found.
pub proof fn lemma_pass_counts(data: Seq<Entry>, upto: nat, start: (Seq<Seq<char>>, Known))
    requires
        upto <= start.0.len(),
    ensures
        pass(data, upto, start).0.len() == start.0.len(),
        pass(data, upto, start).2 == empties(pass(data, upto, start).0.take(upto as int)),
        pass(data, upto, start).2 <= empties(start.0.take(upto as int)),
        pass(data, upto, start).2 <= upto,
        forall|x: int|
            upto <= x < start.0.len() ==> pass(data, upto, start).0[x] == start.0[x],
        forall|x: int|
            0 <= x < start.0.len() && start.0[x].len() > 0 ==> pass(data, upto, start).0[x]
                == start.0[x],
    decreases upto,
{
    if upto > 0 {
        let x = (upto - 1) as nat;
        lemma_pass_counts(data, x, start);
        let s = pass(data, x, start);
        let r = pass(data, upto, start);
        assert(r.0.take(upto as int).drop_last() == s.0.take(x as int));
        assert(start.0.take(upto as int).drop_last() == start.0.take(x as int));
        assert(r.0.take(upto as int).last() == r.0[x as int]);
        assert(start.0.take(upto as int).last() == start.0[x as int]);
    } else {
        assert(start.0.take(0) == Seq::<Seq<char>>::empty());
    }
}

/// However many rounds are made, there is a domain for each dataset, and
/// a dataset that has a domain keeps it.
pub proof fn lemma_settle_keeps(
    data: Seq<Entry>,
    start: (Seq<Seq<char>>, Known),
    last_fails: nat,
    rounds: nat,
)
    requires
        start.0.len() == data.len(),
    ensures
        settle(data, start, last_fails, rounds).0.len() == data.len(),
        forall|x: int|
            0 <= x < data.len() && start.0[x].len() > 0 ==> settle(
                data,
                start,
                last_fails,
                rounds,
            ).0[x] == start.0[x],
    decreases rounds,
{
    if rounds > 0 {
        lemma_pass_counts(data, data.len(), start);
        let s = pass(data, data.len(), start);
        if s.2 != last_fails {
            lemma_settle_keeps(data, (s.0, s.1), s.2, (rounds - 1) as nat);
        }
    }
}

/// Handing domains on leaves every dataset that names a domain with the
/// domain that it names.
pub proof fn lemma_settled_keeps_named(data: Seq<Entry>)
    ensures
        settled(data).len() == data.len(),
        forall|x: int|
            0 <= x < data.len() && (#[trigger] data[x]).1.domain.len() > 0 ==> settled(data)[x]
                == data[x].1.domain,
{
    let start = (named_domains(data), named_table(data));
    lemma_settle_keeps(data, start, 0, data.len() + 2);
    assert forall|x: int|
        0 <= x < data.len() && (#[trigger] data[x]).1.domain.len() > 0 implies settled(data)[x]
        == data[x].1.domain by {
        assert(start.0[x] == data[x].1.domain);
    }
}

/// `domain` is no domain at all or one that a dataset names.
pub open spec fn offered(data: Seq<Entry>, domain: Seq<char>) -> bool {
    domain.len() == 0 || exists|j: int| 0 <= j < data.len() && (#[trigger] data[j]).1.domain == domain
}

/// Every domain that is known is offered.
pub open spec fn known_offered(data: Seq<Entry>, table: Known) -> bool {
    forall|i: int| 0 <= i < table.len() ==> offered(data, (#[trigger] table[i]).1)
}

/// Every domain that has votes is offered.
pub open spec fn tally_offered(data: Seq<Entry>, tally: Tally) -> bool {
    forall|i: int| 0 <= i < tally.len() ==> offered(data, (#[trigger] tally[i]).0)
}

/// Every domain of the sequence is offered.
pub open spec fn all_offered(data: Seq<Entry>, domains: Seq<Seq<char>>) -> bool {
    forall|i: int| 0 <= i < domains.len() ==> offered(data, #[trigger] domains[i])
}

/// What is known under a name is offered where all that is known is.
pub proof fn lemma_known_offered(data: Seq<Entry>, table: Known, name: Seq<char>)
    requires
        known_offered(data, table),
    ensures
        offered(data, known(table, name)),
    decreases table.len(),
{
    if table.len() > 0 {
        if table.last().0 == name {
            assert(offered(data, table[table.len() - 1].1));
        } else {
            let rest = table.drop_last();
            assert forall|i: int| 0 <= i < rest.len() implies offered(
                data,
                (#[trigger] rest[i]).1,
            ) by {
                assert(rest[i] == table[i]);
            }
            lemma_known_offered(data, rest, name);
        }
    }
}

/// The place of a domain in the tally is a place of the tally, at which
/// the domain stands.
pub proof fn lemma_slot(tally: Tally, domain: Seq<char>)
    ensures
        -1 <= slot(tally, domain) < tally.len(),
        slot(tally, domain) >= 0 ==> tally[slot(tally, domain)].0 == domain,
    decreases tally.len(),
{
    if tally.len() > 0 && tally.last().0 != domain {
        lemma_slot(tally.drop_last(), domain);
    }
}

/// The number of votes that `domain` has.
pub open spec fn votes_for(tally: Tally, domain: Seq<char>) -> nat {
    if slot(tally, domain) >= 0 {
        tally[slot(tally, domain)].1
    } else {
        0
    }
}

/// A tally in which the domains stand as in `tally`, whatever their
/// votes, has them at the same places.
pub proof fn lemma_slot_by_names(tally: Tally, other: Tally, domain: Seq<char>)
    requires
        tally.len() == other.len(),
        forall|i: int| 0 <= i < tally.len() ==> (#[trigger] tally[i]).0 == other[i].0,
    ensures
        slot(tally, domain) == slot(other, domain),
    decreases tally.len(),
{
    if tally.len() > 0 {
        assert(tally.last().0 == other[other.len() - 1].0);
        if tally.last().0 != domain {
            let a = tally.drop_last();
            let b = other.drop_last();
            assert forall|i: int| 0 <= i < a.len() implies (#[trigger] a[i]).0 == b[i].0 by {
                assert(a[i] == tally[i]);
            }
            lemma_slot_by_names(a, b, domain);
        }
    }
}

/// One more vote for a domain is one more vote for that domain and none
/// for any other.
pub proof fn lemma_bump_votes(tally: Tally, domain: Seq<char>, other: Seq<char>)
    ensures
        votes_for(bump(tally, domain), other) == votes_for(tally, other) + if other == domain {
            1nat
        } else {
            0nat
        },
{
    let after = bump(tally, domain);
    let at = slot(tally, domain);
    lemma_slot(tally, domain);
    lemma_slot(tally, other);
    if at >= 0 {
        assert forall|i: int| 0 <= i < tally.len() implies (#[trigger] tally[i]).0
            == after[i].0 by {}
        lemma_slot_by_names(tally, after, other);
    } else {
        assert(after.drop_last() == tally);
    }
}

/// How often `domain` occurs among the texts.
pub open spec fn occurrences(texts: Seq<Seq<char>>, domain: Seq<char>) -> nat
    decreases texts.len(),
{
    if texts.len() == 0 {
        0
    } else {
        occurrences(texts.drop_last(), domain) + if texts.last() == domain {
            1nat
        } else {
            0nat
        }
    }
}

/// The domain with the most votes has no fewer votes than any domain of
/// the tally, and is one of its domains unless the tally is empty.
pub proof fn lemma_best_is_most(tally: Tally)
    ensures
        forall|i: int| 0 <= i < tally.len() ==> (#[trigger] tally[i]).1 <= best(tally).1,
        tally.len() > 0 ==> exists|i: int|
            0 <= i < tally.len() && (#[trigger] tally[i]) == (best(tally).0, best(tally).1 as nat),
        tally.len() == 0 ==> best(tally) == (Seq::<char>::empty(), -1int),
    decreases tally.len(),
{
    if tally.len() > 0 {
        let rest = tally.drop_last();
        lemma_best_is_most(rest);
        assert forall|i: int| 0 <= i < tally.len() implies (#[trigger] tally[i]).1 <= best(
            tally,
        ).1 by {
            if i < rest.len() {
                assert(rest[i] == tally[i]);
            }
        }
        if tally.last().1 > best(rest).1 {
            assert(tally[tally.len() - 1] == (best(tally).0, best(tally).1 as nat));
        } else {
            let i = choose|i: int|
                0 <= i < rest.len() && (#[trigger] rest[i]) == (best(rest).0, best(rest).1 as nat);
            assert(tally[i] == rest[i]);
        }
    }
}

/// A vote for an offered domain leaves only offered domains with votes.
pub proof fn lemma_bump_offered(data: Seq<Entry>, tally: Tally, domain: Seq<char>)
    requires
        tally_offered(data, tally),
        offered(data, domain),
    ensures
        tally_offered(data, bump(tally, domain)),
{
    let after = bump(tally, domain);
    lemma_slot(tally, domain);
    assert forall|i: int| 0 <= i < after.len() implies offered(data, (#[trigger] after[i]).0) by {
        if i < tally.len() && i != slot(tally, domain) {
            assert(after[i] == tally[i]);
        }
    }
}

/// The votes of links go to offered domains.
pub proof fn lemma_tally_links_offered(
    data: Seq<Entry>,
    links: Seq<LinkView>,
    table: Known,
    tally: Tally,
)
    requires
        known_offered(data, table),
        tally_offered(data, tally),
    ensures
        tally_offered(data, tally_links(links, table, tally)),
    decreases links.len(),
{
    if links.len() > 0 {
        lemma_tally_links_offered(data, links.drop_last(), table, tally);
        lemma_known_offered(data, table, links.last().target);
        lemma_bump_offered(
            data,
            tally_links(links.drop_last(), table, tally),
            known(table, links.last().target),
        );
    }
}

/// The votes of the links of another dataset go to an offered domain.
pub proof fn lemma_tally_sources_offered(
    data: Seq<Entry>,
    links: Seq<LinkView>,
    domain: Seq<char>,
    name: Seq<char>,
    tally: Tally,
)
    requires
        offered(data, domain),
        tally_offered(data, tally),
    ensures
        tally_offered(data, tally_sources(links, domain, name, tally)),
    decreases links.len(),
{
    if links.len() > 0 {
        lemma_tally_sources_offered(data, links.drop_last(), domain, name, tally);
        lemma_bump_offered(data, tally_sources(links.drop_last(), domain, name, tally), domain);
    }
}

/// The votes of the links that point to a dataset go to offered domains.
pub proof fn lemma_tally_incoming_offered(
    data: Seq<Entry>,
    some: Seq<Entry>,
    name: Seq<char>,
    table: Known,
    tally: Tally,
)
    requires
        known_offered(data, table),
        tally_offered(data, tally),
    ensures
        tally_offered(data, tally_incoming(some, name, table, tally)),
    decreases some.len(),
{
    if some.len() > 0 {
        let d = some.last().1;
        lemma_tally_incoming_offered(data, some.drop_last(), name, table, tally);
        lemma_known_offered(data, table, d.identifier);
        lemma_tally_sources_offered(
            data,
            d.links,
            known(table, d.identifier),
            name,
            tally_incoming(some.drop_last(), name, table, tally),
        );
    }
}

/// The domain with the most votes is offered.
pub proof fn lemma_best_offered(data: Seq<Entry>, tally: Tally)
    requires
        tally_offered(data, tally),
    ensures
        offered(data, best(tally).0),
    decreases tally.len(),
{
    if tally.len() > 0 {
        let rest = tally.drop_last();
        assert forall|i: int| 0 <= i < rest.len() implies offered(data, (#[trigger] rest[i]).0) by {
            assert(rest[i] == tally[i]);
        }
        lemma_best_offered(data, rest);
        assert(offered(data, tally[tally.len() - 1].0));
    }
}

/// A round gives offered domains only.
pub proof fn lemma_pass_offered(data: Seq<Entry>, upto: nat, start: (Seq<Seq<char>>, Known))
    requires
        upto <= start.0.len(),
        all_offered(data, start.0),
        known_offered(data, start.1),
    ensures
        all_offered(data, pass(data, upto, start).0),
        known_offered(data, pass(data, upto, start).1),
    decreases upto,
{
    if upto > 0 {
        let x = upto - 1;
        lemma_pass_offered(data, x as nat, start);
        lemma_pass_counts(data, x as nat, start);
        let s = pass(data, x as nat, start);
        let r = pass(data, upto, start);
        if s.0[x].len() == 0 {
            let votes = tally_links(data[x].1.links, s.1, Seq::empty());
            lemma_tally_links_offered(data, data[x].1.links, s.1, Seq::empty());
            lemma_tally_incoming_offered(data, data, data[x].1.identifier, s.1, votes);
            lemma_best_offered(data, neighbour_tally(data, x, s.1));
            let w = best(neighbour_tally(data, x, s.1)).0;
            if w.len() > 0 {
                assert forall|i: int| 0 <= i < r.0.len() implies offered(
                    data,
                    #[trigger] r.0[i],
                ) by {
                    if i != x {
                        assert(r.0[i] == s.0[i]);
                    }
                }
                assert forall|i: int| 0 <= i < r.1.len() implies offered(
                    data,
                    (#[trigger] r.1[i]).1,
                ) by {
                    if i < s.1.len() {
                        assert(r.1[i] == s.1[i]);
                    }
                }
            }
        }
    }
}

/// However many rounds are made, only offered domains are given.
pub proof fn lemma_settle_offered(
    data: Seq<Entry>,
    start: (Seq<Seq<char>>, Known),
    last_fails: nat,
    rounds: nat,
)
    requires
        start.0.len() == data.len(),
        all_offered(data, start.0),
        known_offered(data, start.1),
    ensures
        all_offered(data, settle(data, start, last_fails, rounds).0),
    decreases rounds,
{
    if rounds > 0 {
        lemma_pass_offered(data, data.len(), start);
        lemma_pass_counts(data, data.len(), start);
        let s = pass(data, data.len(), start);
        if s.2 != last_fails {
            lemma_settle_offered(data, (s.0, s.1), s.2, (rounds - 1) as nat);
        }
    }
}

/// Handing domains on invents none: a dataset is left without a domain
/// or has one that a dataset named.
pub proof fn lemma_settled_offered(data: Seq<Entry>)
    ensures
        all_offered(data, settled(data)),
{
    let start = (named_domains(data), named_table(data));
    assert forall|i: int| 0 <= i < start.0.len() implies offered(data, #[trigger] start.0[i]) by {
        assert(data[i].1.domain == start.0[i]);
    }
    assert forall|i: int| 0 <= i < start.1.len() implies offered(data, (#[trigger] start.1[i]).1) by {
        assert(data[i].1.domain == start.1[i].1);
    }
    lemma_settle_offered(data, start, 0, data.len() + 2);
}

/// Once a round has been made, the rounds that may still be made never
/// run out where there is one more of them than datasets without a
/// domain: with more rounds allowed the domains settle the same.
pub proof fn lemma_rounds_suffice(
    data: Seq<Entry>,
    start: (Seq<Seq<char>>, Known),
    rounds: nat,
    more: nat,
)
    requires
        start.0.len() == data.len(),
        rounds >= empties(start.0) + 1,
        more >= rounds,
    ensures
        settle(data, start, empties(start.0), more) == settle(
            data,
            start,
            empties(start.0),
            rounds,
        ),
    decreases empties(start.0),
{
    lemma_pass_counts(data, data.len(), start);
    let s = pass(data, data.len(), start);
    assert(start.0.take(data.len() as int) == start.0);
    assert(s.0.take(data.len() as int) == s.0);
    if s.2 != empties(start.0) {
        lemma_rounds_suffice(data, (s.0, s.1), (rounds - 1) as nat, (more - 1) as nat);
    }
}

/// The rounds that `settled` allows never run out: with more rounds
/// allowed the domains settle the same.
pub proof fn lemma_settled_in_time(data: Seq<Entry>, more: nat)
    requires
        more >= data.len() + 2,
    ensures
        settle(data, (named_domains(data), named_table(data)), 0, more).0 == settled(data),
{
    let start = (named_domains(data), named_table(data));
    lemma_pass_counts(data, data.len(), start);
    let s = pass(data, data.len(), start);
    assert(s.0.take(data.len() as int) == s.0);
    if s.2 != 0 {
        lemma_rounds_suffice(data, (s.0, s.1), (data.len() + 1) as nat, (more - 1) as nat);
    }
}

/// A round in which every dataset without a domain fails changes
/// nothing.
pub proof fn lemma_pass_idle(data: Seq<Entry>, upto: nat, start: (Seq<Seq<char>>, Known))
    requires
        upto <= start.0.len(),
        pass(data, upto, start).2 == empties(start.0.take(upto as int)),
    ensures
        pass(data, upto, start).0 == start.0,
        pass(data, upto, start).1 == start.1,
    decreases upto,
{
    if upto > 0 {
        let x = (upto - 1) as nat;
        lemma_pass_counts(data, x, start);
        let s = pass(data, x, start);
        assert(start.0.take(upto as int).drop_last() == start.0.take(x as int));
        assert(start.0.take(upto as int).last() == start.0[x as int]);
        if s.2 == empties(start.0.take(x as int)) {
            lemma_pass_idle(data, x, start);
        }
    }
}

/// Once a round has been made and the rounds that may still be made do
/// not run out, the domains settle so that a further round would change
/// nothing.
pub proof fn lemma_settle_rests(data: Seq<Entry>, start: (Seq<Seq<char>>, Known), rounds: nat)
    requires
        start.0.len() == data.len(),
        rounds >= empties(start.0) + 1,
    ensures
        pass(data, data.len(), settle(data, start, empties(start.0), rounds)).0 == settle(
            data,
            start,
            empties(start.0),
            rounds,
        ).0,
        pass(data, data.len(), settle(data, start, empties(start.0), rounds)).1 == settle(
            data,
            start,
            empties(start.0),
            rounds,
        ).1,
    decreases empties(start.0),
{
    lemma_pass_counts(data, data.len(), start);
    let s = pass(data, data.len(), start);
    assert(start.0.take(data.len() as int) == start.0);
    assert(s.0.take(data.len() as int) == s.0);
    if s.2 != empties(start.0) {
        lemma_settle_rests(data, (s.0, s.1), (rounds - 1) as nat);
    } else {
        lemma_pass_idle(data, data.len(), start);
    }
}

/// The domains settle so that a further round would change nothing,
/// neither a domain nor what is known.
pub proof fn lemma_settled_rests(data: Seq<Entry>)
    ensures
        ({
            let end = settle(data, (named_domains(data), named_table(data)), 0, data.len() + 2);
            &&& end.0 == settled(data)
            &&& pass(data, data.len(), end).0 == end.0
            &&& pass(data, data.len(), end).1 == end.1
        }),
{
    let start = (named_domains(data), named_table(data));
    lemma_pass_counts(data, data.len(), start);
    let s = pass(data, data.len(), start);
    assert(s.0.take(data.len() as int) == s.0);
    if s.2 != 0 {
        lemma_settle_rests(data, (s.0, s.1), (data.len() + 1) as nat);
    } else {
        lemma_pass_counts(data, data.len(), (s.0, s.1));
        lemma_pass_idle(data, data.len(), (s.0, s.1));
    }
}

/// Makes one round over all datasets and returns how many failed.
fn sweep(data: &Vec<(String, Dataset)>, domains: &mut Vec<String>, table: &mut Vec<(String, String)>) -> (fails:
    usize)
    requires
        old(domains)@.len() == data@.len(),
    ensures
        (texts(final(domains)@), table_view(final(table)@), fails as nat) == pass(
            entries(data@),
            data@.len(),
            (texts(old(domains)@), table_view(old(table)@)),
        ),
{
    let ghost all = entries(data@);
    let ghost start = (texts(domains@), table_view(table@));
    let count = data.len();
    let mut fails: usize = 0;
    let mut x: usize = 0;
    while x < count
        invariant
            x <= count,
            count == data@.len(),
            all == entries(data@),
            domains@.len() == count,
            start.0.len() == count,
            fails <= x,
            (texts(domains@), table_view(table@), fails as nat) == pass(all, x as nat, start),
        decreases count - x,
    {
        let ghost before = (texts(domains@), table_view(table@));
        if domains[x].as_str().is_empty() {
            let tally = tally_neighbours(data, x, table);
            match best_slot(&tally) {
                Some(i) => {
                    if tally[i].0.as_str().is_empty() {
                        fails += 1;
                    } else {
                        domains.set(x, tally[i].0.clone());
                        table.push((data[x].1.identifier.clone(), tally[i].0.clone()));
                        proof {
                            let w = tally@[i as int].0@;
                            assert(texts(domains@) =~= before.0.update(x as int, w));
                            assert(table_view(table@) =~= before.1.push(
                                (all[x as int].1.identifier, w),
                            ));
                        }
                    }
                },
                None => {
                    fails += 1;
                },
            }
        }
        x += 1;
    }
    fails
}

/// A dataset with another domain.
pub open spec fn with_domain(d: DatasetView, domain: Seq<char>) -> DatasetView {
    DatasetView {
        description: d.description,
        title: d.title,
        links: d.links,
        identifier: d.identifier,
        domain,
        triples: d.triples,
        keywords: d.keywords,
    }
}

/// Gives each dataset without a domain the domain that most of its
/// neighbours have, those that it links to and those that link to it.
/// Domains found in this way are handed on in turn, round after round,
/// until a round finds as few as the one before. A dataset keeps a domain
/// that it names, and nothing but domains is changed.
pub fn domain_by_most_neighbours(datasets: &mut Vec<(String, Dataset)>)
    ensures
        final(datasets)@.len() == old(datasets)@.len(),
        forall|i: int|
            0 <= i < old(datasets)@.len() ==> (#[trigger] final(datasets)@[i]).0@ == old(
                datasets,
            )@[i].0@ && final(datasets)@[i].1@ == with_domain(
                old(datasets)@[i].1@,
                settled(entries(old(datasets)@))[i],
            ),
{
    let ghost all = entries(datasets@);
    let count = datasets.len();
    let mut domains: Vec<String> = Vec::new();
    let mut table: Vec<(String, String)> = Vec::new();
    let mut i: usize = 0;
    while i < count
        invariant
            i <= count,
            count == datasets@.len(),
            all == entries(datasets@),
            domains@.len() == i,
            table@.len() == i,
            forall|k: int| 0 <= k < i ==> (#[trigger] domains@[k])@ == all[k].1.domain,
            forall|k: int|
                0 <= k < i ==> (#[trigger] table@[k]).0@ == all[k].0 && table@[k].1@
                    == all[k].1.domain,
        decreases count - i,
    {
        domains.push(datasets[i].1.domain.clone());
        table.push((datasets[i].0.clone(), datasets[i].1.domain.clone()));
        i += 1;
    }
    assert(texts(domains@) =~= named_domains(all));
    assert(table_view(table@) =~= named_table(all));
    let ghost start = (texts(domains@), table_view(table@));
    let ghost mut rounds: nat = (count + 1) as nat;
    proof {
        lemma_pass_counts(all, count as nat, start);
        assert(pass(all, count as nat, start).0.take(count as int) == pass(
            all,
            count as nat,
            start,
        ).0);
    }
    let mut last: usize = 0;
    let mut fails = sweep(datasets, &mut domains, &mut table);
    while fails != last
        invariant
            count == datasets@.len(),
            all == entries(datasets@),
            domains@.len() == count,
            fails == empties(texts(domains@)),
            fails != last ==> rounds >= fails + 1,
            settled(all) == if fails == last {
                texts(domains@)
            } else {
                settle(all, (texts(domains@), table_view(table@)), fails as nat, rounds).0
            },
        decreases
                (if fails != last {
                    fails + 1
                } else {
                    0
                }),
    {
        let ghost before = (texts(domains@), table_view(table@));
        proof {
            lemma_pass_counts(all, count as nat, before);
            assert(before.0.take(count as int) == before.0);
            assert(pass(all, count as nat, before).0.take(count as int) == pass(
                all,
                count as nat,
                before,
            ).0);
        }
        last = fails;
        fails = sweep(datasets, &mut domains, &mut table);
        proof {
            rounds = (rounds - 1) as nat;
        }
    }
    let mut i: usize = 0;
    while i < count
        invariant
            i <= count,
            count == datasets@.len(),
            count == old(datasets)@.len(),
            domains@.len() == count,
            forall|k: int|
                0 <= k < count ==> (#[trigger] datasets@[k]).0@ == old(datasets)@[k].0@,
            forall|k: int|
                0 <= k < i ==> (#[trigger] datasets@[k]).1@ == with_domain(
                    old(datasets)@[k].1@,
                    domains@[k]@,
                ),
            forall|k: int| i <= k < count ==> (#[trigger] datasets@[k]).1@ == old(datasets)@[k].1@,
        decreases count - i,
    {
        datasets[i].1.domain = domains[i].clone();
        i += 1;
    }
    assert forall|k: int| 0 <= k < count implies texts(domains@)[k] == domains@[k]@ by {}
}

/// The tally after each of the keywords has had a vote.
pub open spec fn tally_keywords(keywords: Seq<Seq<char>>, tally: Tally) -> Tally
    decreases keywords.len(),
{
    if keywords.len() == 0 {
        tally
    } else {
        bump(tally_keywords(keywords.drop_last(), tally), keywords.last())
    }
}

/// A keyword has as many more votes as it occurs among the keywords.
pub proof fn lemma_tally_keywords_votes(keywords: Seq<Seq<char>>, tally: Tally, word: Seq<char>)
    ensures
        votes_for(tally_keywords(keywords, tally), word) == votes_for(tally, word) + occurrences(
            keywords,
            word,
        ),
    decreases keywords.len(),
{
    if keywords.len() > 0 {
        lemma_tally_keywords_votes(keywords.drop_last(), tally, word);
        lemma_bump_votes(tally_keywords(keywords.drop_last(), tally), keywords.last(), word);
    }
}

/// The number of datasets of each domain, among the datasets that name a
/// domain.
pub open spec fn domain_tally(data: Seq<Entry>) -> Tally
    decreases data.len(),
{
    if data.len() == 0 {
        Seq::empty()
    } else {
        let earlier = domain_tally(data.drop_last());
        let domain = data.last().1.domain;
        if domain.len() > 0 {
            bump(earlier, domain)
        } else {
            earlier
        }
    }
}

/// A dataset of the domain `of`, or of any domain where `of` is empty; a
/// dataset that names no domain is neither.
pub open spec fn counts_for(d: crate::data::DatasetView, of: Seq<char>) -> bool {
    d.domain.len() > 0 && (of.len() == 0 || d.domain == of)
}

/// How often each keyword is given by the datasets of the domain `of`, or
/// by the datasets of any domain where `of` is empty.
pub open spec fn keyword_tally(data: Seq<Entry>, of: Seq<char>) -> Tally
    decreases data.len(),
{
    if data.len() == 0 {
        Seq::empty()
    } else {
        let earlier = keyword_tally(data.drop_last(), of);
        if counts_for(data.last().1, of) {
            tally_keywords(data.last().1.keywords, earlier)
        } else {
            earlier
        }
    }
}

/// The number of datasets that name the domain `domain`.
pub open spec fn datasets_of(data: Seq<Entry>, domain: Seq<char>) -> nat
    decreases data.len(),
{
    if data.len() == 0 {
        0
    } else {
        datasets_of(data.drop_last(), domain) + if data.last().1.domain == domain {
            1nat
        } else {
            0nat
        }
    }
}

/// How often the datasets that count for `of` give the keyword `word`.
pub open spec fn keyword_uses(data: Seq<Entry>, of: Seq<char>, word: Seq<char>) -> nat
    decreases data.len(),
{
    if data.len() == 0 {
        0
    } else {
        keyword_uses(data.drop_last(), of, word) + if counts_for(data.last().1, of) {
            occurrences(data.last().1.keywords, word)
        } else {
            0nat
        }
    }
}

/// A domain has as many votes as datasets name it.
pub proof fn lemma_domain_tally_counts(data: Seq<Entry>, domain: Seq<char>)
    requires
        domain.len() > 0,
    ensures
        votes_for(domain_tally(data), domain) == datasets_of(data, domain),
    decreases data.len(),
{
    if data.len() > 0 {
        lemma_domain_tally_counts(data.drop_last(), domain);
        if data.last().1.domain.len() > 0 {
            lemma_bump_votes(domain_tally(data.drop_last()), data.last().1.domain, domain);
        }
    }
}

/// A keyword has as many votes as the datasets that count give it.
pub proof fn lemma_keyword_tally_counts(data: Seq<Entry>, of: Seq<char>, word: Seq<char>)
    ensures
        votes_for(keyword_tally(data, of), word) == keyword_uses(data, of, word),
    decreases data.len(),
{
    if data.len() > 0 {
        lemma_keyword_tally_counts(data.drop_last(), of, word);
        if counts_for(data.last().1, of) {
            lemma_tally_keywords_votes(
                data.last().1.keywords,
                keyword_tally(data.drop_last(), of),
                word,
            );
        }
    }
}

/// Counts how often each domain is named.
pub fn count_domains(data: &Vec<(String, Dataset)>) -> (tally: Vec<(String, u128)>)
    ensures
        tally_view(tally@) == domain_tally(entries(data@)),
{
    let ghost all = entries(data@);
    let mut tally: Vec<(String, u128)> = Vec::new();
    let count = data.len();
    let mut a: usize = 0;
    assert(all.take(0) == Seq::<Entry>::empty());
    assert(tally_view(tally@) =~= Seq::<(Seq<char>, nat)>::empty());
    while a < count
        invariant
            a <= count,
            count == data@.len(),
            all == entries(data@),
            tally_view(tally@) == domain_tally(all.take(a as int)),
            votes_below(tally_view(tally@), a as int),
        decreases count - a,
    {
        proof {
            assert(all.take(a + 1).drop_last() == all.take(a as int));
            assert(all.take(a + 1).last() == all[a as int]);
        }
        let ghost before = tally_view(tally@);
        if !data[a].1.domain.as_str().is_empty() {
            bump_tally(&mut tally, &data[a].1.domain, Ghost(a as int));
        }
        assert forall|i: int| 0 <= i < tally_view(tally@).len() implies (#[trigger] tally_view(
            tally@,
        )[i]).1 <= a + 1 by {
            if tally_view(tally@) == before {
                assert(before[i].1 <= a);
            }
        }
        a += 1;
    }
    assert(all.take(all.len() as int) == all);
    tally
}

/// Counts how often each keyword is given by the datasets of the domain
/// `of`, or by the datasets of any domain where `of` is empty. Datasets
/// that name no domain are left out.
pub fn count_keywords(data: &Vec<(String, Dataset)>, of: &String) -> (tally: Vec<(String, u128)>)
    ensures
        tally_view(tally@) == keyword_tally(entries(data@), of@),
{
    let ghost all = entries(data@);
    let mut tally: Vec<(String, u128)> = Vec::new();
    let count = data.len();
    let any = of.as_str().is_empty();
    let mut a: usize = 0;
    assert(all.take(0) == Seq::<Entry>::empty());
    assert(tally_view(tally@) =~= Seq::<(Seq<char>, nat)>::empty());
    while a < count
        invariant
            a <= count,
            count == data@.len(),
            all == entries(data@),
            any == (of@.len() == 0),
            tally_view(tally@) == keyword_tally(all.take(a as int), of@),
            votes_below(tally_view(tally@), a * usize::MAX),
        decreases count - a,
    {
        let dataset = &data[a].1;
        let ghost keywords = all[a as int].1.keywords;
        let ghost start = tally_view(tally@);
        proof {
            assert(all.take(a + 1).drop_last() == all.take(a as int));
            assert(all.take(a + 1).last() == all[a as int]);
        }
        if !dataset.domain.as_str().is_empty() && (any || dataset.domain == *of) {
            let theirs = dataset.keywords.len();
            let mut b: usize = 0;
            assert(keywords.take(0) == Seq::<Seq<char>>::empty());
            while b < theirs
                invariant
                    b <= theirs,
                    theirs == dataset.keywords@.len(),
                    keywords == dataset@.keywords,
                    a < count,
                    tally_view(tally@) == tally_keywords(keywords.take(b as int), start),
                    votes_below(tally_view(tally@), a * usize::MAX + b),
                decreases theirs - b,
            {
                proof {
                    assert(keywords.take(b + 1).drop_last() == keywords.take(b as int));
                    assert(keywords.take(b + 1).last() == dataset.keywords@[b as int]@);
                    lemma_votes_fit(0, a as int, b as int);
                }
                bump_tally(&mut tally, &dataset.keywords[b], Ghost(a * usize::MAX + b));
                b += 1;
            }
            assert(keywords.take(keywords.len() as int) == keywords);
        }
        proof {
            assert((a + 1) * usize::MAX == a * usize::MAX + usize::MAX) by (nonlinear_arith);
            assert forall|i: int| 0 <= i < tally_view(tally@).len() implies (#[trigger] tally_view(
                tally@,
            )[i]).1 <= (a + 1) * usize::MAX by {}
        }
        a += 1;
    }
    assert(all.take(all.len() as int) == all);
    tally
}

} // verus!
